//! The names of phases and states in messages.

use vstd::prelude::*;

use crate::domain::{
    AnalysisCompleteness, AnalysisPhase, DefragPhase, MountState, SupportStatus, SupportView,
};

verus! {

/// The name of a phase of an analysis.
pub open spec fn analysis_phase_name(phase: AnalysisPhase) -> Seq<char> {
    match phase {
        AnalysisPhase::ReadingAllocationMap => "ReadingAllocationMap"@,
        AnalysisPhase::WalkingFiles => "WalkingFiles"@,
        AnalysisPhase::BuildingReport => "BuildingReport"@,
    }
}

/// Names a phase of an analysis.
pub fn analysis_phase(phase: AnalysisPhase) -> (name: &'static str)
    ensures
        name@ == analysis_phase_name(phase),
{
    match phase {
        AnalysisPhase::ReadingAllocationMap => "ReadingAllocationMap",
        AnalysisPhase::WalkingFiles => "WalkingFiles",
        AnalysisPhase::BuildingReport => "BuildingReport",
    }
}

/// The name of a phase of a defragmentation.
pub open spec fn defrag_phase_name(phase: DefragPhase) -> Seq<char> {
    match phase {
        DefragPhase::Revalidating => "Revalidating"@,
        DefragPhase::AllocatingDonor => "AllocatingDonor"@,
        DefragPhase::MovingExtents => "MovingExtents"@,
        DefragPhase::EvacuatingClusters => "EvacuatingClusters"@,
        DefragPhase::VerifyingData => "VerifyingData"@,
        DefragPhase::CommittingMetadata => "CommittingMetadata"@,
        DefragPhase::RefreshingMap => "RefreshingMap"@,
    }
}

/// Names a phase of a defragmentation.
pub fn defrag_phase(phase: DefragPhase) -> (name: &'static str)
    ensures
        name@ == defrag_phase_name(phase),
{
    match phase {
        DefragPhase::Revalidating => "Revalidating",
        DefragPhase::AllocatingDonor => "AllocatingDonor",
        DefragPhase::MovingExtents => "MovingExtents",
        DefragPhase::EvacuatingClusters => "EvacuatingClusters",
        DefragPhase::VerifyingData => "VerifyingData",
        DefragPhase::CommittingMetadata => "CommittingMetadata",
        DefragPhase::RefreshingMap => "RefreshingMap",
    }
}

/// The name of what an analysis saw.
pub open spec fn completeness_name(completeness: AnalysisCompleteness) -> Seq<char> {
    match completeness {
        AnalysisCompleteness::Complete => "Complete"@,
        AnalysisCompleteness::Partial => "Partial"@,
    }
}

/// Names what an analysis saw.
pub fn completeness(seen: AnalysisCompleteness) -> (name: &'static str)
    ensures
        name@ == completeness_name(seen),
{
    match seen {
        AnalysisCompleteness::Complete => "Complete",
        AnalysisCompleteness::Partial => "Partial",
    }
}

/// The name of how a volume is mounted.
pub open spec fn mount_state_name(state: MountState) -> Seq<char> {
    match state {
        MountState::MountedReadWrite => "mounted-rw"@,
        MountState::MountedReadOnly => "mounted-ro"@,
        MountState::Unmounted => "unmounted"@,
    }
}

/// Names how a volume is mounted.
pub fn mount_state(state: MountState) -> (name: &'static str)
    ensures
        name@ == mount_state_name(state),
{
    match state {
        MountState::MountedReadWrite => "mounted-rw",
        MountState::MountedReadOnly => "mounted-ro",
        MountState::Unmounted => "unmounted",
    }
}

/// The name of what can be done with a volume.
pub open spec fn support_name(status: SupportView) -> Seq<char> {
    match status {
        SupportView::ReadOnly => "analysis-only"@,
        SupportView::Defragmentable => "defragmentable"@,
        SupportView::Unsupported { reason } => "unsupported"@,
    }
}

/// Names what can be done with a volume.
pub fn support(status: &SupportStatus) -> (name: &'static str)
    ensures
        name@ == support_name(status@),
{
    match status {
        SupportStatus::ReadOnly => "analysis-only",
        SupportStatus::Defragmentable => "defragmentable",
        SupportStatus::Unsupported { .. } => "unsupported",
    }
}

} // verus!
