//! Finished analyses and the plans that are made of them.

use vstd::prelude::*;

use crate::arith;
use crate::domain::{
    AnalysisCompleteness, AnalysisReport, AnalysisReportView, DefragPolicy, ExecutionRequirements,
    FileReport, FileReportView, OptimizationMode, PlanCandidate, PlanCandidateRole,
    PlanCandidateView, PlanSummary, PlanSummaryView, RequiredMountState, Volume, VolumeView,
};
use crate::error;
use crate::error::{ErrorView, IoKind, ServiceError};
use crate::path;
use crate::path::FsPath;
use crate::sort;
use crate::sort::PairKey;
use crate::views;

verus! {

/// What executing a plan leaves.
#[derive(Debug)]
pub struct PlanExecution {
    pub report: AnalysisReport,
    pub stopped: bool,
}

/// The contents of a [`PlanExecution`].
#[verifier::ext_equal]
pub struct ExecutionView {
    pub report: AnalysisReportView,
    pub stopped: bool,
}

impl View for PlanExecution {
    type V = ExecutionView;

    open spec fn view(&self) -> ExecutionView {
        ExecutionView { report: self.report@, stopped: self.stopped }
    }
}

/// A finished analysis.
pub trait FilesystemAnalysis {
    /// What the analysis found.
    spec fn found(&self) -> AnalysisReportView;

    /// The plan that a policy gives.
    spec fn planned(&self, policy: DefragPolicy) -> Result<PlanView, ErrorView>;

    fn report(&self) -> (report: &AnalysisReport)
        ensures
            report@ == self.found(),
    ;

    fn build_plan(&self, policy: &DefragPolicy) -> (plan: Result<Plan, ServiceError>)
        ensures
            error::outcome(plan) == self.planned(*policy),
    ;
}

/// A plan that is ready.
pub trait PreparedPlan {
    /// What the plan will do.
    spec fn summarized(&self) -> PlanSummaryView;

    fn summary(&self) -> (summary: &PlanSummary)
        ensures
            summary@ == self.summarized(),
    ;

    fn execution_requirements(&self) -> (requirements: ExecutionRequirements)
        ensures
            requirements == self.summarized().requirements,
    ;
}

// ---------------------------------------------------------------------
// Candidates
// ---------------------------------------------------------------------

/// Whether a policy takes a file: one that can be moved, that is fragmented
/// enough, and that is large enough. A file without excess runs is never
/// taken.
pub open spec fn is_candidate(file: FileReportView, policy: DefragPolicy) -> bool {
    &&& file.eligible_for_plan
    &&& file.excess_runs >= arith::max_int(policy.minimum_excess_runs as int, 1)
    &&& file.logical_bytes >= policy.minimum_file_bytes
}

/// What a plan says of a file that it takes.
pub open spec fn candidate_of(file: FileReportView) -> PlanCandidateView {
    PlanCandidateView {
        path: file.path,
        rewrite_bytes: file.allocated_bytes,
        current_runs: file.physical_runs,
        target_runs: arith::max_int(file.minimum_runs as int, 1) as u32,
        role: PlanCandidateRole::FragmentationTarget,
    }
}

/// The files that a policy takes, in the order of the report.
pub open spec fn candidates_in(files: Seq<FileReportView>, policy: DefragPolicy) -> Seq<
    PlanCandidateView,
>
    decreases files.len(),
{
    if files.len() == 0 {
        Seq::empty()
    } else if is_candidate(files.last(), policy) {
        candidates_in(files.drop_last(), policy).push(candidate_of(files.last()))
    } else {
        candidates_in(files.drop_last(), policy)
    }
}

/// The runs that a plan can do away with in a file.
pub open spec fn gain(candidate: PlanCandidateView) -> int {
    arith::max_int(candidate.current_runs - candidate.target_runs, 0)
}

/// The key by which candidates are taken: the greatest gain first.
pub open spec fn gain_key(candidate: PlanCandidateView) -> PairKey {
    PairKey { first: (u64::MAX - gain(candidate)) as u64, second: 0 }
}

pub open spec fn gain_keys(candidates: Seq<PlanCandidateView>) -> Seq<PairKey> {
    Seq::new(candidates.len(), |i: int| gain_key(candidates[i]))
}

/// The candidates in the order in which they are taken; equals stay in the
/// order of the report.
pub open spec fn ranked(candidates: Seq<PlanCandidateView>) -> Seq<PlanCandidateView> {
    sort::sorted(gain_keys(candidates), candidates)
}

/// The bytes that candidates have together.
pub open spec fn rewrite_bytes(candidates: Seq<PlanCandidateView>) -> nat
    decreases candidates.len(),
{
    if candidates.len() == 0 {
        0
    } else {
        rewrite_bytes(candidates.drop_last()) + candidates.last().rewrite_bytes as nat
    }
}

proof fn lemma_candidates_fewer(files: Seq<FileReportView>, policy: DefragPolicy)
    ensures
        candidates_in(files, policy).len() <= files.len(),
    decreases files.len(),
{
    if files.len() > 0 {
        lemma_candidates_fewer(files.drop_last(), policy);
    }
}

/// A candidate in the list of candidates comes of a file of the report that
/// the policy takes.
pub open spec fn comes_of(
    files: Seq<FileReportView>,
    policy: DefragPolicy,
    candidate: PlanCandidateView,
) -> bool {
    exists|i: int|
        0 <= i < files.len() && is_candidate(#[trigger] files[i], policy) && candidate
            == candidate_of(files[i])
}

/// Every candidate comes of a file that the policy takes; every file that
/// the policy takes is a candidate; and a candidate has runs to gain, where
/// its fewest runs are counted as its report counts them.
pub proof fn lemma_candidates_are_the_fragmented_files(
    files: Seq<FileReportView>,
    policy: DefragPolicy,
)
    ensures
        forall|k: int|
            0 <= k < candidates_in(files, policy).len() ==> comes_of(
                files,
                policy,
                #[trigger] candidates_in(files, policy)[k],
            ),
        forall|i: int|
            0 <= i < files.len() && is_candidate(#[trigger] files[i], policy) ==> candidates_in(
                files,
                policy,
            ).contains(candidate_of(files[i])),
        forall|i: int|
            0 <= i < files.len() && is_candidate(#[trigger] files[i], policy)
                && files[i].minimum_runs >= 1 && files[i].excess_runs == arith::max_int(
                files[i].physical_runs - files[i].minimum_runs,
                0,
            ) ==> gain(candidate_of(files[i])) >= 1,
    decreases files.len(),
{
    if files.len() > 0 {
        let rest = files.drop_last();
        let list = candidates_in(files, policy);
        let before = candidates_in(rest, policy);
        lemma_candidates_are_the_fragmented_files(rest, policy);
        assert forall|k: int| 0 <= k < list.len() implies comes_of(
            files,
            policy,
            #[trigger] list[k],
        ) by {
            if k < before.len() {
                assert(comes_of(rest, policy, before[k]));
                let i = choose|i: int|
                    0 <= i < rest.len() && is_candidate(#[trigger] rest[i], policy) && before[k]
                        == candidate_of(rest[i]);
                assert(files[i] == rest[i]);
            } else {
                assert(files[files.len() - 1] == files.last());
            }
        }
        assert forall|i: int|
            0 <= i < files.len() && is_candidate(#[trigger] files[i], policy) implies list.contains(
            candidate_of(files[i]),
        ) by {
            if i < rest.len() {
                assert(rest[i] == files[i]);
                let k = choose|k: int|
                    0 <= k < before.len() && before[k] == candidate_of(files[i]);
                assert(list[k] == before[k]);
            } else {
                assert(list[list.len() - 1] == candidate_of(files[i]));
            }
        }
    }
}

/// Gathers the files that a policy takes.
fn select_candidates(files: &Vec<FileReport>, policy: &DefragPolicy) -> (candidates: Vec<
    PlanCandidate,
>)
    ensures
        views::of(candidates@) == candidates_in(views::of(files@), *policy),
{
    let minimum_excess: u32 = if policy.minimum_excess_runs == 0 {
        1
    } else {
        policy.minimum_excess_runs
    };
    let mut candidates: Vec<PlanCandidate> = Vec::new();
    let mut i: usize = 0;
    let ghost all = views::of(files@);
    assert(views::of(candidates@) =~= Seq::empty());
    while i < files.len()
        invariant
            i <= files@.len(),
            all == views::of(files@),
            minimum_excess == arith::max_int(policy.minimum_excess_runs as int, 1),
            views::of(candidates@) == candidates_in(all.take(i as int), *policy),
        decreases files@.len() - i,
    {
        let file: &FileReport = &files[i];
        assert(all.take(i + 1).drop_last() =~= all.take(i as int));
        assert(all.take(i + 1).last() == file@);
        if file.eligible_for_plan && file.excess_runs >= minimum_excess && file.logical_bytes
            >= policy.minimum_file_bytes {
            let ghost before = views::of(candidates@);
            let candidate = PlanCandidate {
                path: file.path.clone(),
                rewrite_bytes: file.allocated_bytes,
                current_runs: file.physical_runs,
                target_runs: if file.minimum_runs == 0 {
                    1
                } else {
                    file.minimum_runs
                },
                role: PlanCandidateRole::FragmentationTarget,
            };
            let ghost added = candidate@;
            candidates.push(candidate);
            assert(views::of(candidates@) =~= before.push(added));
        }
        i = i + 1;
    }
    assert(all.take(i as int) =~= all);
    candidates
}

fn total_rewrite_bytes(candidates: &Vec<PlanCandidate>) -> (bytes: u64)
    ensures
        bytes == arith::sat64(rewrite_bytes(views::of(candidates@)) as int),
{
    let mut bytes: u64 = 0;
    let mut i: usize = 0;
    let ghost all = views::of(candidates@);
    while i < candidates.len()
        invariant
            i <= candidates@.len(),
            all == views::of(candidates@),
            bytes == arith::sat64(rewrite_bytes(all.take(i as int)) as int),
        decreases candidates@.len() - i,
    {
        assert(all.take(i + 1).drop_last() =~= all.take(i as int));
        bytes = bytes.saturating_add(candidates[i].rewrite_bytes);
        i = i + 1;
    }
    assert(all.take(i as int) =~= all);
    bytes
}

fn rank_candidates(candidates: Vec<PlanCandidate>) -> (out: Vec<PlanCandidate>)
    ensures
        views::of(out@) == ranked(views::of(candidates@)),
        out@.len() == candidates@.len(),
{
    let mut keys: Vec<PairKey> = Vec::new();
    let mut i: usize = 0;
    let ghost all = views::of(candidates@);
    while i < candidates.len()
        invariant
            i <= candidates@.len(),
            all == views::of(candidates@),
            keys@ == gain_keys(all).take(i as int),
        decreases candidates@.len() - i,
    {
        let lost: u32 = candidates[i].current_runs.saturating_sub(candidates[i].target_runs);
        let key: PairKey = PairKey { first: u64::MAX - lost as u64, second: 0 };
        assert(key == gain_key(all[i as int]));
        keys.push(key);
        i = i + 1;
        assert(keys@ =~= gain_keys(all).take(i as int));
    }
    assert(keys@ =~= gain_keys(all));
    let ghost before = candidates@;
    let out: Vec<PlanCandidate> = sort::sort_by_keys(&keys, candidates);
    proof {
        sort::lemma_sorted(keys@, before, out@);
    }
    out
}

// ---------------------------------------------------------------------
// Plans
// ---------------------------------------------------------------------

/// The contents of a [`Plan`].
#[verifier::ext_equal]
pub enum PlanView {
    Ext4(Ext4PlanView),
    Fat { summary: PlanSummaryView },
}

/// The contents of an [`Ext4Plan`].
#[verifier::ext_equal]
pub struct Ext4PlanView {
    pub volume: VolumeView,
    pub report: AnalysisReportView,
    /// The files to rewrite, relative to the root of the filesystem, in the
    /// order of the candidates.
    pub relative_paths: Seq<Seq<u8>>,
    pub summary: PlanSummaryView,
}

/// A plan that the ext4 writer can execute.
#[derive(Debug)]
pub struct Ext4Plan {
    pub volume: Volume,
    pub report: AnalysisReport,
    pub relative_paths: Vec<FsPath>,
    pub summary: PlanSummary,
}

impl View for Ext4Plan {
    type V = Ext4PlanView;

    open spec fn view(&self) -> Ext4PlanView {
        Ext4PlanView {
            volume: self.volume@,
            report: self.report@,
            relative_paths: views::of(self.relative_paths@),
            summary: self.summary@,
        }
    }
}

/// A preview of what a FAT writer would do.
#[derive(Debug)]
pub struct FatPlan {
    pub summary: PlanSummary,
}

/// A plan of either kind.
#[derive(Debug)]
pub enum Plan {
    Ext4(Ext4Plan),
    Fat(FatPlan),
}

impl View for Plan {
    type V = PlanView;

    open spec fn view(&self) -> PlanView {
        match self {
            Plan::Ext4(plan) => PlanView::Ext4(plan@),
            Plan::Fat(plan) => PlanView::Fat { summary: plan.summary@ },
        }
    }
}

/// What a plan will do.
pub open spec fn summary_of(plan: PlanView) -> PlanSummaryView {
    match plan {
        PlanView::Ext4(plan) => plan.summary,
        PlanView::Fat { summary } => summary,
    }
}

impl PreparedPlan for Ext4Plan {
    open spec fn summarized(&self) -> PlanSummaryView {
        self.summary@
    }

    fn summary(&self) -> (summary: &PlanSummary) {
        &self.summary
    }

    fn execution_requirements(&self) -> (requirements: ExecutionRequirements) {
        self.summary.requirements
    }
}

impl PreparedPlan for FatPlan {
    open spec fn summarized(&self) -> PlanSummaryView {
        self.summary@
    }

    fn summary(&self) -> (summary: &PlanSummary) {
        &self.summary
    }

    fn execution_requirements(&self) -> (requirements: ExecutionRequirements) {
        self.summary.requirements
    }
}

impl PreparedPlan for Plan {
    open spec fn summarized(&self) -> PlanSummaryView {
        summary_of(self@)
    }

    fn summary(&self) -> (summary: &PlanSummary) {
        match self {
            Plan::Ext4(plan) => plan.summary(),
            Plan::Fat(plan) => plan.summary(),
        }
    }

    fn execution_requirements(&self) -> (requirements: ExecutionRequirements) {
        match self {
            Plan::Ext4(plan) => plan.execution_requirements(),
            Plan::Fat(plan) => plan.execution_requirements(),
        }
    }
}

// ---------------------------------------------------------------------
// ext4
// ---------------------------------------------------------------------

pub open spec fn ext4_plan_warnings(completeness: AnalysisCompleteness) -> Seq<Seq<char>> {
    let first = seq![
        "Every candidate is reopened and revalidated immediately before moving extents."@,
    ];
    if completeness == AnalysisCompleteness::Partial {
        first.push("The plan is based on a partial analysis."@)
    } else {
        first
    }
}

/// What an ext4 plan will do.
pub open spec fn ext4_summary(report: AnalysisReportView, policy: DefragPolicy) -> PlanSummaryView {
    let candidates = candidates_in(report.files, policy);
    PlanSummaryView {
        volume_id: report.volume.id,
        candidates: ranked(candidates),
        estimated_rewrite_bytes: arith::sat64(rewrite_bytes(candidates) as int) as u64,
        excluded_files: (report.files.len() - candidates.len()) as u64,
        warnings: ext4_plan_warnings(report.completeness),
        requirements: ExecutionRequirements {
            mount_state: RequiredMountState::MountedReadWrite,
            requires_privilege: true,
            available_in_this_build: true,
        },
    }
}

/// The paths of candidates relative to a root.
pub open spec fn relative_paths_of(candidates: Seq<PlanCandidateView>, root: Seq<u8>) -> Seq<
    Seq<u8>,
> {
    Seq::new(candidates.len(), |i: int| path::relative_to(candidates[i].path, root))
}

/// Whether all candidates lie below a root.
pub open spec fn all_below(candidates: Seq<PlanCandidateView>, root: Seq<u8>) -> bool {
    forall|i: int| 0 <= i < candidates.len() ==> path::is_below((#[trigger] candidates[i]).path, root)
}

/// The plan for an analyzed ext4 filesystem. It only defragments, and only
/// files below the root that was analyzed.
pub open spec fn ext4_plan(report: AnalysisReportView, policy: DefragPolicy) -> Result<
    PlanView,
    ErrorView,
> {
    let summary = ext4_summary(report, policy);
    if policy.mode != OptimizationMode::Defragment {
        Err(
            ErrorView::UnsupportedOptimizationMode { filesystem: "ext4"@, mode: policy.mode },
        )
    } else {
        match report.volume.mount_point {
            None => Err(error::io_failure(IoKind::NotFound, "analysis has no filesystem root"@)),
            Some(root) => if !all_below(summary.candidates, root) {
                Err(
                    error::io_failure(
                        IoKind::InvalidData,
                        "candidate escaped the analyzed filesystem"@,
                    ),
                )
            } else {
                Ok(
                    PlanView::Ext4(
                        Ext4PlanView {
                            volume: report.volume,
                            report,
                            relative_paths: relative_paths_of(summary.candidates, root),
                            summary,
                        },
                    ),
                )
            },
        }
    }
}

/// Makes paths relative to a root, where all lie below it.
fn relative_paths(candidates: &Vec<PlanCandidate>, root: &FsPath) -> (paths: Option<Vec<FsPath>>)
    ensures
        (paths is Some) == all_below(views::of(candidates@), root@),
        paths matches Some(list) ==> views::of(list@) == relative_paths_of(
            views::of(candidates@),
            root@,
        ),
{
    let mut paths: Vec<FsPath> = Vec::new();
    let mut i: usize = 0;
    let ghost all = views::of(candidates@);
    while i < candidates.len()
        invariant
            i <= candidates@.len(),
            all == views::of(candidates@),
            forall|k: int| 0 <= k < i ==> path::is_below((#[trigger] all[k]).path, root@),
            paths@.len() == i,
            forall|k: int|
                0 <= k < i ==> #[trigger] paths@[k]@ == path::relative_to(all[k].path, root@),
        decreases candidates@.len() - i,
    {
        assert(all[i as int].path == candidates@[i as int].path@);
        match candidates[i].path.strip_prefix(root) {
            None => {
                return None;
            },
            Some(relative) => {
                paths.push(relative);
            },
        }
        i = i + 1;
    }
    assert(views::of(paths@) =~= relative_paths_of(all, root@));
    Some(paths)
}

fn ext4_warnings(completeness: AnalysisCompleteness) -> (warnings: Vec<String>)
    ensures
        views::of(warnings@) == ext4_plan_warnings(completeness),
{
    let mut warnings: Vec<String> = Vec::new();
    warnings.push(
        "Every candidate is reopened and revalidated immediately before moving extents.".to_owned(),
    );
    if completeness == AnalysisCompleteness::Partial {
        warnings.push("The plan is based on a partial analysis.".to_owned());
    }
    assert(views::of(warnings@) =~= ext4_plan_warnings(completeness));
    warnings
}

/// A finished analysis of an ext4 filesystem.
#[derive(Debug)]
pub struct Ext4Analysis {
    pub report: AnalysisReport,
}

impl FilesystemAnalysis for Ext4Analysis {
    open spec fn found(&self) -> AnalysisReportView {
        self.report@
    }

    open spec fn planned(&self, policy: DefragPolicy) -> Result<PlanView, ErrorView> {
        ext4_plan(self.report@, policy)
    }

    fn report(&self) -> (report: &AnalysisReport) {
        &self.report
    }

    fn build_plan(&self, policy: &DefragPolicy) -> (plan: Result<Plan, ServiceError>) {
        if policy.mode != OptimizationMode::Defragment {
            return Err(
                ServiceError::UnsupportedOptimizationMode {
                    filesystem: "ext4".to_owned(),
                    mode: policy.mode,
                },
            );
        }
        let selected: Vec<PlanCandidate> = select_candidates(&self.report.files, policy);
        proof {
            lemma_candidates_fewer(self.report@.files, *policy);
            assert(views::of(selected@).len() == selected@.len());
        }
        let estimated_rewrite_bytes: u64 = total_rewrite_bytes(&selected);
        let candidates: Vec<PlanCandidate> = rank_candidates(selected);
        let excluded_files: u64 = self.report.files.len() as u64 - candidates.len() as u64;
        let warnings: Vec<String> = ext4_warnings(self.report.completeness);
        let root: &FsPath = match &self.report.volume.mount_point {
            None => {
                return Err(error::io_error(IoKind::NotFound, "analysis has no filesystem root"));
            },
            Some(root) => root,
        };
        match relative_paths(&candidates, root) {
            None => Err(
                error::io_error(
                    IoKind::InvalidData,
                    "candidate escaped the analyzed filesystem",
                ),
            ),
            Some(relative_paths) => Ok(
                Plan::Ext4(
                    Ext4Plan {
                        volume: self.report.volume.clone(),
                        report: self.report.clone(),
                        relative_paths,
                        summary: PlanSummary {
                            volume_id: self.report.volume.id,
                            candidates,
                            estimated_rewrite_bytes,
                            excluded_files,
                            warnings,
                            requirements: ExecutionRequirements {
                                mount_state: RequiredMountState::MountedReadWrite,
                                requires_privilege: true,
                                available_in_this_build: true,
                            },
                        },
                    },
                ),
            ),
        }
    }
}

// ---------------------------------------------------------------------
// FAT
// ---------------------------------------------------------------------

/// What a FAT plan would do. Mounted FAT volumes are not written.
pub open spec fn fat_summary(report: AnalysisReportView, policy: DefragPolicy) -> PlanSummaryView {
    let candidates = candidates_in(report.files, policy);
    PlanSummaryView {
        volume_id: report.volume.id,
        candidates: ranked(candidates),
        estimated_rewrite_bytes: arith::sat64(rewrite_bytes(candidates) as int) as u64,
        excluded_files: (report.files.len() - candidates.len()) as u64,
        warnings: seq![
            "Preview only: this build contains no FAT or exFAT cluster-moving operation."@,
            "A future writer must operate offline and revalidate the allocation chains."@,
        ],
        requirements: ExecutionRequirements {
            mount_state: RequiredMountState::Unmounted,
            requires_privilege: true,
            available_in_this_build: false,
        },
    }
}

/// A finished analysis of a FAT or exFAT filesystem.
#[derive(Debug)]
pub struct FatAnalysis {
    pub report: AnalysisReport,
}

impl FilesystemAnalysis for FatAnalysis {
    open spec fn found(&self) -> AnalysisReportView {
        self.report@
    }

    open spec fn planned(&self, policy: DefragPolicy) -> Result<PlanView, ErrorView> {
        Ok(PlanView::Fat { summary: fat_summary(self.report@, policy) })
    }

    fn report(&self) -> (report: &AnalysisReport) {
        &self.report
    }

    fn build_plan(&self, policy: &DefragPolicy) -> (plan: Result<Plan, ServiceError>) {
        let selected: Vec<PlanCandidate> = select_candidates(&self.report.files, policy);
        proof {
            lemma_candidates_fewer(self.report@.files, *policy);
            assert(views::of(selected@).len() == selected@.len());
        }
        let estimated_rewrite_bytes: u64 = total_rewrite_bytes(&selected);
        let candidates: Vec<PlanCandidate> = rank_candidates(selected);
        let excluded_files: u64 = self.report.files.len() as u64 - candidates.len() as u64;
        let mut warnings: Vec<String> = Vec::new();
        warnings.push(
            "Preview only: this build contains no FAT or exFAT cluster-moving operation.".to_owned(),
        );
        warnings.push(
            "A future writer must operate offline and revalidate the allocation chains.".to_owned(),
        );
        assert(views::of(warnings@) =~= fat_summary(self.report@, *policy).warnings);
        Ok(
            Plan::Fat(
                FatPlan {
                    summary: PlanSummary {
                        volume_id: self.report.volume.id,
                        candidates,
                        estimated_rewrite_bytes,
                        excluded_files,
                        warnings,
                        requirements: ExecutionRequirements {
                            mount_state: RequiredMountState::Unmounted,
                            requires_privilege: true,
                            available_in_this_build: false,
                        },
                    },
                },
            ),
        )
    }
}

/// A finished analysis of either kind.
#[derive(Debug)]
pub enum Analysis {
    Ext4(Ext4Analysis),
    Fat(FatAnalysis),
}

impl FilesystemAnalysis for Analysis {
    open spec fn found(&self) -> AnalysisReportView {
        match self {
            Analysis::Ext4(analysis) => analysis.found(),
            Analysis::Fat(analysis) => analysis.found(),
        }
    }

    open spec fn planned(&self, policy: DefragPolicy) -> Result<PlanView, ErrorView> {
        match self {
            Analysis::Ext4(analysis) => analysis.planned(policy),
            Analysis::Fat(analysis) => analysis.planned(policy),
        }
    }

    fn report(&self) -> (report: &AnalysisReport) {
        match self {
            Analysis::Ext4(analysis) => analysis.report(),
            Analysis::Fat(analysis) => analysis.report(),
        }
    }

    fn build_plan(&self, policy: &DefragPolicy) -> (plan: Result<Plan, ServiceError>) {
        match self {
            Analysis::Ext4(analysis) => analysis.build_plan(policy),
            Analysis::Fat(analysis) => analysis.build_plan(policy),
        }
    }
}

} // verus!
