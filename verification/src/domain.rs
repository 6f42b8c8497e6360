//! The vocabulary of the service: volumes, reports, plans, jobs and events.

use vstd::prelude::*;

use crate::path::FsPath;
use crate::views;

verus! {

/// Identifies a volume across requests.
#[derive(Clone, Copy, Debug, PartialEq, Eq, Hash, Structural)]
pub struct VolumeId(pub u64);

/// Identifies a running job.
#[derive(Clone, Copy, Debug, PartialEq, Eq, Hash, Structural)]
pub struct JobId(pub u64);

/// Identifies a finished analysis.
#[derive(Clone, Copy, Debug, PartialEq, Eq, Hash, Structural)]
pub struct AnalysisId(pub u64);

/// Identifies a prepared plan.
#[derive(Clone, Copy, Debug, PartialEq, Eq, Hash, Structural)]
pub struct PlanId(pub u64);

/// How a volume is mounted.
#[derive(Clone, Copy, Debug, PartialEq, Eq, Structural)]
pub enum MountState {
    MountedReadWrite,
    MountedReadOnly,
    Unmounted,
}

/// Whether an analysis saw everything.
#[derive(Clone, Copy, Debug, PartialEq, Eq, Structural)]
pub enum AnalysisCompleteness {
    Complete,
    Partial,
}

/// The parts of a map bin that hold filesystem metadata, in basis points.
#[derive(Clone, Copy, Debug, PartialEq, Eq, Structural)]
pub struct MetadataMix {
    pub filesystem_headers: u16,
    pub journal: u16,
    pub allocation_tables: u16,
    pub file_metadata: u16,
    pub group_descriptors: u16,
    pub block_bitmaps: u16,
    pub file_bitmaps: u16,
    pub reserved: u16,
    pub other: u16,
}

impl Default for MetadataMix {
    fn default() -> (value: Self)
        ensures
            value == (MetadataMix {
                filesystem_headers: 0,
                journal: 0,
                allocation_tables: 0,
                file_metadata: 0,
                group_descriptors: 0,
                block_bitmaps: 0,
                file_bitmaps: 0,
                reserved: 0,
                other: 0,
            }),
    {
        MetadataMix {
            filesystem_headers: 0,
            journal: 0,
            allocation_tables: 0,
            file_metadata: 0,
            group_descriptors: 0,
            block_bitmaps: 0,
            file_bitmaps: 0,
            reserved: 0,
            other: 0,
        }
    }
}

/// The parts of a map bin by what they hold, in basis points.
#[derive(Clone, Copy, Debug, PartialEq, Eq, Structural)]
pub struct CategoryMix {
    pub free: u16,
    pub contiguous_data: u16,
    pub fragmented_data: u16,
    pub unscanned_data: u16,
    pub defrag_staging: u16,
    pub metadata: MetadataMix,
}

impl Default for CategoryMix {
    fn default() -> (value: Self)
        ensures
            value == (CategoryMix {
                free: 0,
                contiguous_data: 0,
                fragmented_data: 0,
                unscanned_data: 0,
                defrag_staging: 0,
                metadata: MetadataMix {
                    filesystem_headers: 0,
                    journal: 0,
                    allocation_tables: 0,
                    file_metadata: 0,
                    group_descriptors: 0,
                    block_bitmaps: 0,
                    file_bitmaps: 0,
                    reserved: 0,
                    other: 0,
                },
            }),
    {
        CategoryMix {
            free: 0,
            contiguous_data: 0,
            fragmented_data: 0,
            unscanned_data: 0,
            defrag_staging: 0,
            metadata: MetadataMix {
                filesystem_headers: 0,
                journal: 0,
                allocation_tables: 0,
                file_metadata: 0,
                group_descriptors: 0,
                block_bitmaps: 0,
                file_bitmaps: 0,
                reserved: 0,
                other: 0,
            },
        }
    }
}

/// One bin of a drive map: a range of bytes and what they hold.
#[derive(Clone, Copy, Debug, PartialEq, Eq, Structural)]
pub struct MapBin {
    pub offset_bytes: u64,
    pub length_bytes: u64,
    pub mix: CategoryMix,
}

/// A range of bytes on the device.
#[derive(Clone, Copy, Debug, PartialEq, Eq, Structural)]
pub struct PhysicalRange {
    pub offset_bytes: u64,
    pub length_bytes: u64,
}

/// How much of a volume an analysis saw.
#[derive(Clone, Copy, Debug, PartialEq, Eq, Structural)]
pub struct ScanCoverage {
    pub files_scanned: u64,
    pub directories_scanned: u64,
    pub skipped_entries: u64,
    pub scanned_allocated_bytes: u64,
    pub total_allocated_data_bytes: u64,
    pub estimated_basis_points: Option<u16>,
}

impl Default for ScanCoverage {
    fn default() -> (value: Self)
        ensures
            value == (ScanCoverage {
                files_scanned: 0,
                directories_scanned: 0,
                skipped_entries: 0,
                scanned_allocated_bytes: 0,
                total_allocated_data_bytes: 0,
                estimated_basis_points: None,
            }),
    {
        ScanCoverage {
            files_scanned: 0,
            directories_scanned: 0,
            skipped_entries: 0,
            scanned_allocated_bytes: 0,
            total_allocated_data_bytes: 0,
            estimated_basis_points: None,
        }
    }
}

/// How fragmented the scanned files are.
#[derive(Clone, Copy, Debug, PartialEq, Eq, Structural)]
pub struct FragmentationMetrics {
    pub fragmented_files: u64,
    pub fragmented_allocated_bytes: u64,
    pub total_physical_runs: u64,
    pub total_excess_runs: u64,
    pub average_run_bytes: u64,
    pub fragmented_basis_points: Option<u16>,
}

impl Default for FragmentationMetrics {
    fn default() -> (value: Self)
        ensures
            value == (FragmentationMetrics {
                fragmented_files: 0,
                fragmented_allocated_bytes: 0,
                total_physical_runs: 0,
                total_excess_runs: 0,
                average_run_bytes: 0,
                fragmented_basis_points: None,
            }),
    {
        FragmentationMetrics {
            fragmented_files: 0,
            fragmented_allocated_bytes: 0,
            total_physical_runs: 0,
            total_excess_runs: 0,
            average_run_bytes: 0,
            fragmented_basis_points: None,
        }
    }
}

/// What a plan is made for.
#[derive(Clone, Copy, Debug, PartialEq, Eq, Structural)]
pub enum OptimizationMode {
    Defragment,
    Compact,
}

impl Default for OptimizationMode {
    fn default() -> (value: Self)
        ensures
            value == (OptimizationMode::Defragment),
    {
        OptimizationMode::Defragment
    }
}

/// Which files a plan takes.
#[derive(Clone, Copy, Debug, PartialEq, Eq, Structural)]
pub struct DefragPolicy {
    pub mode: OptimizationMode,
    pub minimum_excess_runs: u32,
    pub minimum_file_bytes: u64,
}

impl Default for DefragPolicy {
    fn default() -> (value: Self)
        ensures
            value == (DefragPolicy {
                mode: OptimizationMode::Defragment,
                minimum_excess_runs: 0,
                minimum_file_bytes: 0,
            }),
    {
        DefragPolicy {
            mode: OptimizationMode::Defragment,
            minimum_excess_runs: 0,
            minimum_file_bytes: 0,
        }
    }
}

/// The mount state that executing a plan needs.
#[derive(Clone, Copy, Debug, PartialEq, Eq, Structural)]
pub enum RequiredMountState {
    MountedReadWrite,
    MountedReadOnly,
    Unmounted,
}

/// What executing a plan needs.
#[derive(Clone, Copy, Debug, PartialEq, Eq, Structural)]
pub struct ExecutionRequirements {
    pub mount_state: RequiredMountState,
    pub requires_privilege: bool,
    pub available_in_this_build: bool,
}

/// Why a file is in a plan.
#[derive(Clone, Copy, Debug, PartialEq, Eq, Structural)]
pub enum PlanCandidateRole {
    FragmentationTarget,
    CompactionSupport,
}

impl Default for PlanCandidateRole {
    fn default() -> (value: Self)
        ensures
            value == (PlanCandidateRole::FragmentationTarget),
    {
        PlanCandidateRole::FragmentationTarget
    }
}

/// The phases of an analysis.
#[derive(Clone, Copy, Debug, PartialEq, Eq, Structural)]
pub enum AnalysisPhase {
    ReadingAllocationMap,
    WalkingFiles,
    BuildingReport,
}

/// The phases of a defragmentation.
#[derive(Clone, Copy, Debug, PartialEq, Eq, Structural)]
pub enum DefragPhase {
    Revalidating,
    AllocatingDonor,
    MovingExtents,
    EvacuatingClusters,
    VerifyingData,
    CommittingMetadata,
    RefreshingMap,
}

/// What a client may ask of the service.
#[derive(Clone, Copy, Debug, PartialEq, Eq, Structural)]
pub enum ServiceRequest {
    ListVolumes,
    StartAnalysis { volume_id: VolumeId },
    Pause { job_id: JobId },
    Resume { job_id: JobId },
    Cancel { job_id: JobId },
    BuildPlan { analysis_id: AnalysisId, policy: DefragPolicy },
    StartDefrag { plan_id: PlanId },
}

/// What the service can do with a volume.
#[derive(Debug)]
pub enum SupportStatus {
    ReadOnly,
    Defragmentable,
    Unsupported { reason: String },
}

/// The contents of a [`SupportStatus`].
#[verifier::ext_equal]
pub enum SupportView {
    ReadOnly,
    Defragmentable,
    Unsupported { reason: Seq<char> },
}

impl View for SupportStatus {
    type V = SupportView;

    open spec fn view(&self) -> SupportView {
        match self {
            SupportStatus::ReadOnly => SupportView::ReadOnly,
            SupportStatus::Defragmentable => SupportView::Defragmentable,
            SupportStatus::Unsupported { reason } => SupportView::Unsupported { reason: reason@ },
        }
    }
}

impl Clone for SupportStatus {
    fn clone(&self) -> (copy: Self)
        ensures
            copy@ == self@,
    {
        match self {
            SupportStatus::ReadOnly => SupportStatus::ReadOnly,
            SupportStatus::Defragmentable => SupportStatus::Defragmentable,
            SupportStatus::Unsupported { reason } => SupportStatus::Unsupported {
                reason: reason.clone(),
            },
        }
    }
}

/// A filesystem on a block device.
#[derive(Debug)]
pub struct Volume {
    pub id: VolumeId,
    pub mount_id: Option<u64>,
    pub parent_mount_id: Option<u64>,
    pub device_major: u32,
    pub device_minor: u32,
    pub mount_point: Option<FsPath>,
    pub source: String,
    pub filesystem: String,
    pub label: Option<String>,
    pub uuid: Option<String>,
    pub mount_state: MountState,
    pub read_only: bool,
    pub capacity_bytes: u64,
    pub used_bytes: Option<u64>,
    pub free_bytes: Option<u64>,
    pub support: SupportStatus,
}

/// The contents of a [`Volume`].
#[verifier::ext_equal]
pub struct VolumeView {
    pub id: VolumeId,
    pub mount_id: Option<u64>,
    pub parent_mount_id: Option<u64>,
    pub device_major: u32,
    pub device_minor: u32,
    pub mount_point: Option<Seq<u8>>,
    pub source: Seq<char>,
    pub filesystem: Seq<char>,
    pub label: Option<Seq<char>>,
    pub uuid: Option<Seq<char>>,
    pub mount_state: MountState,
    pub read_only: bool,
    pub capacity_bytes: u64,
    pub used_bytes: Option<u64>,
    pub free_bytes: Option<u64>,
    pub support: SupportView,
}

impl View for Volume {
    type V = VolumeView;

    open spec fn view(&self) -> VolumeView {
        VolumeView {
            id: self.id,
            mount_id: self.mount_id,
            parent_mount_id: self.parent_mount_id,
            device_major: self.device_major,
            device_minor: self.device_minor,
            mount_point: views::opt(self.mount_point),
            source: self.source@,
            filesystem: self.filesystem@,
            label: views::opt(self.label),
            uuid: views::opt(self.uuid),
            mount_state: self.mount_state,
            read_only: self.read_only,
            capacity_bytes: self.capacity_bytes,
            used_bytes: self.used_bytes,
            free_bytes: self.free_bytes,
            support: self.support@,
        }
    }
}

impl Clone for Volume {
    fn clone(&self) -> (copy: Self)
        ensures
            copy@ == self@,
    {
        Volume {
            id: self.id,
            mount_id: self.mount_id,
            parent_mount_id: self.parent_mount_id,
            device_major: self.device_major,
            device_minor: self.device_minor,
            mount_point: views::clone_option(&self.mount_point),
            source: self.source.clone(),
            filesystem: self.filesystem.clone(),
            label: views::clone_option(&self.label),
            uuid: views::clone_option(&self.uuid),
            mount_state: self.mount_state,
            read_only: self.read_only,
            capacity_bytes: self.capacity_bytes,
            used_bytes: self.used_bytes,
            free_bytes: self.free_bytes,
            support: self.support.clone(),
        }
    }
}

/// What an analysis found of one file.
#[derive(Debug)]
pub struct FileReport {
    pub path: FsPath,
    pub logical_bytes: u64,
    pub allocated_bytes: u64,
    pub physical_runs: u32,
    pub minimum_runs: u32,
    pub excess_runs: u32,
    pub average_run_bytes: u64,
    pub eligible_for_plan: bool,
    pub exclusion_reason: Option<String>,
    /// Where the file lies on the device: the drive map names the files of
    /// a selected block by these.
    pub physical_ranges: Vec<PhysicalRange>,
}

/// The contents of a [`FileReport`].
#[verifier::ext_equal]
pub struct FileReportView {
    pub path: Seq<u8>,
    pub logical_bytes: u64,
    pub allocated_bytes: u64,
    pub physical_runs: u32,
    pub minimum_runs: u32,
    pub excess_runs: u32,
    pub average_run_bytes: u64,
    pub eligible_for_plan: bool,
    pub exclusion_reason: Option<Seq<char>>,
    pub physical_ranges: Seq<PhysicalRange>,
}

impl View for FileReport {
    type V = FileReportView;

    open spec fn view(&self) -> FileReportView {
        FileReportView {
            path: self.path@,
            logical_bytes: self.logical_bytes,
            allocated_bytes: self.allocated_bytes,
            physical_runs: self.physical_runs,
            minimum_runs: self.minimum_runs,
            excess_runs: self.excess_runs,
            average_run_bytes: self.average_run_bytes,
            eligible_for_plan: self.eligible_for_plan,
            exclusion_reason: views::opt(self.exclusion_reason),
            physical_ranges: self.physical_ranges@,
        }
    }
}

impl Clone for FileReport {
    fn clone(&self) -> (copy: Self)
        ensures
            copy@ == self@,
    {
        FileReport {
            path: self.path.clone(),
            logical_bytes: self.logical_bytes,
            allocated_bytes: self.allocated_bytes,
            physical_runs: self.physical_runs,
            minimum_runs: self.minimum_runs,
            excess_runs: self.excess_runs,
            average_run_bytes: self.average_run_bytes,
            eligible_for_plan: self.eligible_for_plan,
            exclusion_reason: views::clone_option(&self.exclusion_reason),
            physical_ranges: views::copy_list(&self.physical_ranges),
        }
    }
}

/// The result of an analysis.
#[derive(Debug)]
pub struct AnalysisReport {
    pub volume: Volume,
    pub completeness: AnalysisCompleteness,
    pub coverage: ScanCoverage,
    pub fragmentation: FragmentationMetrics,
    pub files: Vec<FileReport>,
    pub map: Vec<MapBin>,
    pub warnings: Vec<String>,
}

/// The contents of a [`AnalysisReport`].
#[verifier::ext_equal]
pub struct AnalysisReportView {
    pub volume: VolumeView,
    pub completeness: AnalysisCompleteness,
    pub coverage: ScanCoverage,
    pub fragmentation: FragmentationMetrics,
    pub files: Seq<FileReportView>,
    pub map: Seq<MapBin>,
    pub warnings: Seq<Seq<char>>,
}

impl View for AnalysisReport {
    type V = AnalysisReportView;

    open spec fn view(&self) -> AnalysisReportView {
        AnalysisReportView {
            volume: self.volume@,
            completeness: self.completeness,
            coverage: self.coverage,
            fragmentation: self.fragmentation,
            files: views::of(self.files@),
            map: self.map@,
            warnings: views::of(self.warnings@),
        }
    }
}

impl Clone for AnalysisReport {
    fn clone(&self) -> (copy: Self)
        ensures
            copy@ == self@,
    {
        AnalysisReport {
            volume: self.volume.clone(),
            completeness: self.completeness,
            coverage: self.coverage,
            fragmentation: self.fragmentation,
            files: views::clone_list(&self.files),
            map: views::copy_list(&self.map),
            warnings: views::clone_list(&self.warnings),
        }
    }
}

/// A file that a plan rewrites.
#[derive(Debug)]
pub struct PlanCandidate {
    pub path: FsPath,
    pub rewrite_bytes: u64,
    pub current_runs: u32,
    pub target_runs: u32,
    pub role: PlanCandidateRole,
}

/// The contents of a [`PlanCandidate`].
#[verifier::ext_equal]
pub struct PlanCandidateView {
    pub path: Seq<u8>,
    pub rewrite_bytes: u64,
    pub current_runs: u32,
    pub target_runs: u32,
    pub role: PlanCandidateRole,
}

impl View for PlanCandidate {
    type V = PlanCandidateView;

    open spec fn view(&self) -> PlanCandidateView {
        PlanCandidateView {
            path: self.path@,
            rewrite_bytes: self.rewrite_bytes,
            current_runs: self.current_runs,
            target_runs: self.target_runs,
            role: self.role,
        }
    }
}

impl Clone for PlanCandidate {
    fn clone(&self) -> (copy: Self)
        ensures
            copy@ == self@,
    {
        PlanCandidate {
            path: self.path.clone(),
            rewrite_bytes: self.rewrite_bytes,
            current_runs: self.current_runs,
            target_runs: self.target_runs,
            role: self.role,
        }
    }
}

/// What a plan will do.
#[derive(Debug)]
pub struct PlanSummary {
    pub volume_id: VolumeId,
    pub candidates: Vec<PlanCandidate>,
    pub estimated_rewrite_bytes: u64,
    pub excluded_files: u64,
    pub warnings: Vec<String>,
    pub requirements: ExecutionRequirements,
}

/// The contents of a [`PlanSummary`].
#[verifier::ext_equal]
pub struct PlanSummaryView {
    pub volume_id: VolumeId,
    pub candidates: Seq<PlanCandidateView>,
    pub estimated_rewrite_bytes: u64,
    pub excluded_files: u64,
    pub warnings: Seq<Seq<char>>,
    pub requirements: ExecutionRequirements,
}

impl View for PlanSummary {
    type V = PlanSummaryView;

    open spec fn view(&self) -> PlanSummaryView {
        PlanSummaryView {
            volume_id: self.volume_id,
            candidates: views::of(self.candidates@),
            estimated_rewrite_bytes: self.estimated_rewrite_bytes,
            excluded_files: self.excluded_files,
            warnings: views::of(self.warnings@),
            requirements: self.requirements,
        }
    }
}

impl Clone for PlanSummary {
    fn clone(&self) -> (copy: Self)
        ensures
            copy@ == self@,
    {
        PlanSummary {
            volume_id: self.volume_id,
            candidates: views::clone_list(&self.candidates),
            estimated_rewrite_bytes: self.estimated_rewrite_bytes,
            excluded_files: self.excluded_files,
            warnings: views::clone_list(&self.warnings),
            requirements: self.requirements,
        }
    }
}

/// How far a defragmentation has come.
#[derive(Debug)]
pub struct DefragProgress {
    pub job_id: JobId,
    pub phase: DefragPhase,
    pub files_completed: u64,
    pub files_total: u64,
    pub bytes_moved: u64,
    pub bytes_total: u64,
    pub current_path: Option<FsPath>,
}

/// The contents of a [`DefragProgress`].
#[verifier::ext_equal]
pub struct DefragProgressView {
    pub job_id: JobId,
    pub phase: DefragPhase,
    pub files_completed: u64,
    pub files_total: u64,
    pub bytes_moved: u64,
    pub bytes_total: u64,
    pub current_path: Option<Seq<u8>>,
}

impl View for DefragProgress {
    type V = DefragProgressView;

    open spec fn view(&self) -> DefragProgressView {
        DefragProgressView {
            job_id: self.job_id,
            phase: self.phase,
            files_completed: self.files_completed,
            files_total: self.files_total,
            bytes_moved: self.bytes_moved,
            bytes_total: self.bytes_total,
            current_path: views::opt(self.current_path),
        }
    }
}

impl Clone for DefragProgress {
    fn clone(&self) -> (copy: Self)
        ensures
            copy@ == self@,
    {
        DefragProgress {
            job_id: self.job_id,
            phase: self.phase,
            files_completed: self.files_completed,
            files_total: self.files_total,
            bytes_moved: self.bytes_moved,
            bytes_total: self.bytes_total,
            current_path: views::clone_option(&self.current_path),
        }
    }
}

/// How far an analysis has come.
#[derive(Debug)]
pub struct JobProgress {
    pub job_id: JobId,
    pub phase: AnalysisPhase,
    pub files_scanned: u64,
    pub bytes_scanned: u64,
    pub current_path: Option<FsPath>,
}

/// The contents of a [`JobProgress`].
#[verifier::ext_equal]
pub struct JobProgressView {
    pub job_id: JobId,
    pub phase: AnalysisPhase,
    pub files_scanned: u64,
    pub bytes_scanned: u64,
    pub current_path: Option<Seq<u8>>,
}

impl View for JobProgress {
    type V = JobProgressView;

    open spec fn view(&self) -> JobProgressView {
        JobProgressView {
            job_id: self.job_id,
            phase: self.phase,
            files_scanned: self.files_scanned,
            bytes_scanned: self.bytes_scanned,
            current_path: views::opt(self.current_path),
        }
    }
}

impl Clone for JobProgress {
    fn clone(&self) -> (copy: Self)
        ensures
            copy@ == self@,
    {
        JobProgress {
            job_id: self.job_id,
            phase: self.phase,
            files_scanned: self.files_scanned,
            bytes_scanned: self.bytes_scanned,
            current_path: views::clone_option(&self.current_path),
        }
    }
}

/// What the service tells its clients.
#[allow(inconsistent_fields)]
#[derive(Debug)]
pub enum ServiceEvent {
    Volumes(Vec<Volume>),
    AnalysisStarted { job_id: JobId },
    Progress(JobProgress),
    MapUpdated { job_id: JobId, full_snapshot: bool, bins: Vec<MapBin> },
    AnalysisFinished { job_id: JobId, analysis_id: AnalysisId, report: Box<AnalysisReport> },
    PlanFinished { plan_id: PlanId, summary: PlanSummary },
    DefragStarted { job_id: JobId, plan_id: PlanId },
    DefragProgress(DefragProgress),
    /// Physical I/O that is announced and not yet reflected in the drive
    /// map. An empty pair clears the pending set.
    DefragPendingIo { job_id: JobId, reading: Vec<PhysicalRange>, writing: Vec<PhysicalRange> },
    DefragFileUpdated {
        job_id: JobId,
        file: FileReport,
        fragmentation: FragmentationMetrics,
        bytes_moved: u64,
    },
    DefragFinished { job_id: JobId, report: Box<AnalysisReport> },
    DefragStopped { job_id: JobId, report: Box<AnalysisReport> },
    JobPaused { job_id: JobId },
    JobResumed { job_id: JobId },
    JobCancelled { job_id: JobId },
    Failed { job_id: Option<JobId>, message: String },
}

/// The contents of a [`ServiceEvent`].
#[allow(inconsistent_fields)]
#[verifier::ext_equal]
pub enum EventView {
    Volumes(Seq<VolumeView>),
    AnalysisStarted { job_id: JobId },
    Progress(JobProgressView),
    MapUpdated { job_id: JobId, full_snapshot: bool, bins: Seq<MapBin> },
    AnalysisFinished { job_id: JobId, analysis_id: AnalysisId, report: AnalysisReportView },
    PlanFinished { plan_id: PlanId, summary: PlanSummaryView },
    DefragStarted { job_id: JobId, plan_id: PlanId },
    DefragProgress(DefragProgressView),
    DefragPendingIo { job_id: JobId, reading: Seq<PhysicalRange>, writing: Seq<PhysicalRange> },
    DefragFileUpdated {
        job_id: JobId,
        file: FileReportView,
        fragmentation: FragmentationMetrics,
        bytes_moved: u64,
    },
    DefragFinished { job_id: JobId, report: AnalysisReportView },
    DefragStopped { job_id: JobId, report: AnalysisReportView },
    JobPaused { job_id: JobId },
    JobResumed { job_id: JobId },
    JobCancelled { job_id: JobId },
    Failed { job_id: Option<JobId>, message: Seq<char> },
}

impl View for ServiceEvent {
    type V = EventView;

    open spec fn view(&self) -> EventView {
        match self {
            ServiceEvent::Volumes(value) => EventView::Volumes(views::of(value@)),
            ServiceEvent::AnalysisStarted { job_id } => EventView::AnalysisStarted {
                job_id: *job_id,
            },
            ServiceEvent::Progress(value) => EventView::Progress(value@),
            ServiceEvent::MapUpdated { job_id, full_snapshot, bins } => EventView::MapUpdated {
                job_id: *job_id,
                full_snapshot: *full_snapshot,
                bins: bins@,
            },
            ServiceEvent::AnalysisFinished { job_id, analysis_id, report } => EventView::AnalysisFinished {
                job_id: *job_id,
                analysis_id: *analysis_id,
                report: report@,
            },
            ServiceEvent::PlanFinished { plan_id, summary } => EventView::PlanFinished {
                plan_id: *plan_id,
                summary: summary@,
            },
            ServiceEvent::DefragStarted { job_id, plan_id } => EventView::DefragStarted {
                job_id: *job_id,
                plan_id: *plan_id,
            },
            ServiceEvent::DefragProgress(value) => EventView::DefragProgress(value@),
            ServiceEvent::DefragPendingIo { job_id, reading, writing } => EventView::DefragPendingIo {
                job_id: *job_id,
                reading: reading@,
                writing: writing@,
            },
            ServiceEvent::DefragFileUpdated { job_id, file, fragmentation, bytes_moved } => EventView::DefragFileUpdated {
                job_id: *job_id,
                file: file@,
                fragmentation: *fragmentation,
                bytes_moved: *bytes_moved,
            },
            ServiceEvent::DefragFinished { job_id, report } => EventView::DefragFinished {
                job_id: *job_id,
                report: report@,
            },
            ServiceEvent::DefragStopped { job_id, report } => EventView::DefragStopped {
                job_id: *job_id,
                report: report@,
            },
            ServiceEvent::JobPaused { job_id } => EventView::JobPaused { job_id: *job_id },
            ServiceEvent::JobResumed { job_id } => EventView::JobResumed { job_id: *job_id },
            ServiceEvent::JobCancelled { job_id } => EventView::JobCancelled { job_id: *job_id },
            ServiceEvent::Failed { job_id, message } => EventView::Failed {
                job_id: *job_id,
                message: message@,
            },
        }
    }
}

impl Clone for ServiceEvent {
    fn clone(&self) -> (copy: Self)
        ensures
            copy@ == self@,
    {
        match self {
            ServiceEvent::Volumes(value) => ServiceEvent::Volumes(views::clone_list(value)),
            ServiceEvent::AnalysisStarted { job_id } => ServiceEvent::AnalysisStarted {
                job_id: *job_id,
            },
            ServiceEvent::Progress(value) => ServiceEvent::Progress(value.clone()),
            ServiceEvent::MapUpdated { job_id, full_snapshot, bins } => ServiceEvent::MapUpdated {
                job_id: *job_id,
                full_snapshot: *full_snapshot,
                bins: views::copy_list(bins),
            },
            ServiceEvent::AnalysisFinished { job_id, analysis_id, report } => ServiceEvent::AnalysisFinished {
                job_id: *job_id,
                analysis_id: *analysis_id,
                report: Box::new((**report).clone()),
            },
            ServiceEvent::PlanFinished { plan_id, summary } => ServiceEvent::PlanFinished {
                plan_id: *plan_id,
                summary: summary.clone(),
            },
            ServiceEvent::DefragStarted { job_id, plan_id } => ServiceEvent::DefragStarted {
                job_id: *job_id,
                plan_id: *plan_id,
            },
            ServiceEvent::DefragProgress(value) => ServiceEvent::DefragProgress(value.clone()),
            ServiceEvent::DefragPendingIo { job_id, reading, writing } => ServiceEvent::DefragPendingIo {
                job_id: *job_id,
                reading: views::copy_list(reading),
                writing: views::copy_list(writing),
            },
            ServiceEvent::DefragFileUpdated { job_id, file, fragmentation, bytes_moved } => ServiceEvent::DefragFileUpdated {
                job_id: *job_id,
                file: file.clone(),
                fragmentation: *fragmentation,
                bytes_moved: *bytes_moved,
            },
            ServiceEvent::DefragFinished { job_id, report } => ServiceEvent::DefragFinished {
                job_id: *job_id,
                report: Box::new((**report).clone()),
            },
            ServiceEvent::DefragStopped { job_id, report } => ServiceEvent::DefragStopped {
                job_id: *job_id,
                report: Box::new((**report).clone()),
            },
            ServiceEvent::JobPaused { job_id } => ServiceEvent::JobPaused { job_id: *job_id },
            ServiceEvent::JobResumed { job_id } => ServiceEvent::JobResumed { job_id: *job_id },
            ServiceEvent::JobCancelled { job_id } => ServiceEvent::JobCancelled { job_id: *job_id },
            ServiceEvent::Failed { job_id, message } => ServiceEvent::Failed {
                job_id: *job_id,
                message: message.clone(),
            },
        }
    }
}

} // verus!
