//! The service: its volumes, its finished analyses and prepared plans, and
//! the jobs that it starts and concludes.

use std::collections::HashMap;

use vstd::prelude::*;

use crate::backend;
use crate::backend::{Backend, FilesystemBackend};
use crate::domain::{
    AnalysisId, DefragPolicy, EventView, JobId, PlanId, PlanSummary, PlanSummaryView, ServiceEvent,
    SupportStatus, Volume, VolumeId, VolumeView,
};
use crate::error;
use crate::error::{ErrorView, OsError, OsErrorView, ServiceError};
use crate::ext4_writer;
use crate::ext4_writer::Ext4Writer;
use crate::jobs::{Control, HandleView, JobHandle};
use crate::mounting;
use crate::mounting::DeviceFacts;
use crate::mounts;
use crate::mounts::{Surroundings, SurroundingsView};
use crate::path::FsPath;
use crate::plan;
use crate::plan::{
    Analysis, ExecutionView, FilesystemAnalysis, Plan, PlanExecution, PlanView, PreparedPlan,
};
use crate::text;
use crate::views;

verus! {

// ---------------------------------------------------------------------
// Volumes
// ---------------------------------------------------------------------

/// The first volume of an identity.
pub open spec fn volume_by_id(volumes: Seq<VolumeView>, id: VolumeId) -> Option<VolumeView>
    decreases volumes.len(),
{
    if volumes.len() == 0 {
        None
    } else if volumes[0].id == id {
        Some(volumes[0])
    } else {
        volume_by_id(volumes.skip(1), id)
    }
}

/// The volume of an identity, or why there is none.
pub open spec fn volume_for(
    around: SurroundingsView,
    backends: Seq<Backend>,
    id: VolumeId,
) -> Result<VolumeView, ErrorView> {
    match mounts::discovered(around, backends) {
        Err(e) => Err(e),
        Ok(volumes) => match volume_by_id(volumes, id) {
            Some(volume) => Ok(volume),
            None => Err(ErrorView::VolumeNotFound(id)),
        },
    }
}

fn find_volume(around: &Surroundings, backends: &Vec<Backend>, id: VolumeId) -> (found: Result<
    Volume,
    ServiceError,
>)
    ensures
        error::outcome(found) == volume_for(around@, backends@, id),
{
    let volumes: Vec<Volume> = match mounts::discover(around, backends) {
        Err(e) => {
            return Err(e);
        },
        Ok(volumes) => volumes,
    };
    let ghost all = views::of(volumes@);
    let mut i: usize = 0;
    assert(all.skip(0) =~= all);
    while i < volumes.len()
        invariant
            i <= volumes@.len(),
            all == views::of(volumes@),
            mounts::discovered(around@, backends@) == Ok::<Seq<VolumeView>, ErrorView>(all),
            volume_by_id(all, id) == volume_by_id(all.skip(i as int), id),
        decreases volumes@.len() - i,
    {
        assert(all.skip(i as int)[0] == volumes@[i as int]@);
        if volumes[i].id == id {
            return Ok(volumes[i].clone());
        }
        assert(all.skip(i as int).skip(1) =~= all.skip(i + 1));
        i = i + 1;
    }
    Err(ServiceError::VolumeNotFound(id))
}

/// The directory to unmount to take a volume offline. Only volumes that must
/// be offline to be written are unmounted: the classic FAT filesystems.
pub open spec fn unmount_request(volume: VolumeView) -> Result<Option<Seq<u8>>, ErrorView> {
    if !backend::is_classic_fat(volume.filesystem) {
        Err(
            ErrorView::UnmountUnavailable(
                volume.filesystem + " does not require offline FAT access"@,
            ),
        )
    } else {
        mounting::unmount_target_of(volume)
    }
}

/// What was read from the device of a volume: what its file is, and its
/// superblock.
pub struct DeviceReading {
    pub facts: Result<DeviceFacts, OsError>,
    pub superblock: Result<Vec<u8>, OsError>,
}

/// The contents of a [`DeviceReading`].
#[verifier::ext_equal]
pub struct ReadingView {
    pub facts: Result<DeviceFacts, OsErrorView>,
    pub superblock: Result<Seq<u8>, OsErrorView>,
}

impl View for DeviceReading {
    type V = ReadingView;

    open spec fn view(&self) -> ReadingView {
        ReadingView {
            facts: match self.facts {
                Ok(facts) => Ok(facts),
                Err(e) => Err(e@),
            },
            superblock: match self.superblock {
                Ok(bytes) => Ok(bytes@),
                Err(e) => Err(e@),
            },
        }
    }
}

/// Whether a superblock was read whole, where it was read.
pub open spec fn is_whole(reading: ReadingView) -> bool {
    reading.superblock matches Ok(bytes) ==> bytes.len() == mounting::EXT4_SUPER_LEN
}

/// Whether the journal of a volume must be replayed before an analysis, as
/// far as its device was read. Volumes that are mounted, and volumes of
/// other filesystems, have none to replay.
pub open spec fn recovery_need(volume: VolumeView, reading: ReadingView) -> Result<bool, ErrorView> {
    if !mounting::is_offline_ext4(volume) {
        Ok(false)
    } else {
        match (reading.facts, reading.superblock) {
            (Err(e), _) => Err(ErrorView::Io(e)),
            (Ok(facts), superblock) => if !mounting::is_device_of(facts, volume) {
                Err(mounting::changed_device_error())
            } else {
                match superblock {
                    Err(e) => Err(ErrorView::Io(e)),
                    Ok(bytes) => mounting::recovery(bytes),
                }
            },
        }
    }
}

/// Tells whether the journal of a volume must be replayed.
pub fn needs_recovery(volume: &Volume, reading: &DeviceReading) -> (result: Result<
    bool,
    ServiceError,
>)
    requires
        is_whole(reading@),
    ensures
        match result {
            Ok(needed) => recovery_need(volume@, reading@) == Ok::<bool, ErrorView>(needed),
            Err(e) => recovery_need(volume@, reading@) == Err::<bool, ErrorView>(e@),
        },
{
    if !mounting::recovery_is_open(volume) {
        return Ok(false);
    }
    let facts: DeviceFacts = match &reading.facts {
        Err(e) => {
            return Err(ServiceError::Io(e.clone()));
        },
        Ok(facts) => *facts,
    };
    if let Err(e) = mounting::validate_block_device(volume, facts) {
        return Err(e);
    }
    match &reading.superblock {
        Err(e) => Err(ServiceError::Io(e.clone())),
        Ok(bytes) => mounting::ext4_needs_recovery(bytes.as_slice()),
    }
}

// ---------------------------------------------------------------------
// The service
// ---------------------------------------------------------------------

/// The service, for callers in the same process.
pub struct InProcessClient {
    backends: Vec<Backend>,
    analyses: HashMap<u64, Analysis>,
    plans: HashMap<u64, Plan>,
    next_job: u64,
    next_analysis: u64,
    next_plan: u64,
}

/// The contents of an [`InProcessClient`].
#[verifier::ext_equal]
pub struct ClientView {
    pub backends: Seq<Backend>,
    /// The finished analyses by their identities.
    pub analyses: Map<u64, Analysis>,
    /// The prepared plans by their identities.
    pub plans: Map<u64, Plan>,
    pub next_job: u64,
    pub next_analysis: u64,
    pub next_plan: u64,
}

impl View for InProcessClient {
    type V = ClientView;

    closed spec fn view(&self) -> ClientView {
        ClientView {
            backends: self.backends@,
            analyses: self.analyses@,
            plans: self.plans@,
            next_job: self.next_job,
            next_analysis: self.next_analysis,
            next_plan: self.next_plan,
        }
    }
}

/// The number that follows another; the greatest is followed by zero.
pub open spec fn following(number: u64) -> u64 {
    if number == u64::MAX {
        0
    } else {
        (number + 1) as u64
    }
}

fn next_number(number: u64) -> (next: u64)
    ensures
        next == following(number),
{
    if number == u64::MAX {
        0
    } else {
        number + 1
    }
}

/// An analysis that has begun: the owner's end of its job, the volume, and
/// who walks it.
pub struct StartedAnalysis {
    pub handle: JobHandle,
    pub volume: Volume,
    pub backend: Backend,
    /// Whether the volume may be mounted for writing to replay its journal.
    pub allow_journal_recovery: bool,
}

/// The contents of a [`StartedAnalysis`].
#[verifier::ext_equal]
pub struct StartedAnalysisView {
    pub handle: HandleView,
    pub volume: VolumeView,
    pub backend: Backend,
    pub allow_journal_recovery: bool,
}

impl View for StartedAnalysis {
    type V = StartedAnalysisView;

    open spec fn view(&self) -> StartedAnalysisView {
        StartedAnalysisView {
            handle: self.handle@,
            volume: self.volume@,
            backend: self.backend,
            allow_journal_recovery: self.allow_journal_recovery,
        }
    }
}

/// A handle of a job that was just announced.
pub open spec fn new_handle(job_id: JobId, announcement: EventView) -> HandleView {
    HandleView {
        job_id,
        events: seq![announcement],
        control: Control { paused: false, cancelled: false },
    }
}

/// The analysis that is begun for a volume, or why none is.
pub open spec fn analysis_start(
    client: ClientView,
    around: SurroundingsView,
    id: VolumeId,
    allow_journal_recovery: bool,
) -> Result<StartedAnalysisView, ErrorView> {
    let job_id = JobId(client.next_job);
    match volume_for(around, client.backends, id) {
        Err(e) => Err(e),
        Ok(volume) => match (
            backend::is_supported(volume.support),
            backend::first_supporting(client.backends, volume.filesystem),
        ) {
            (true, Some(found)) => Ok(
                StartedAnalysisView {
                    handle: new_handle(job_id, EventView::AnalysisStarted { job_id }),
                    volume,
                    backend: found,
                    allow_journal_recovery,
                },
            ),
            _ => Err(ErrorView::UnsupportedFilesystem(volume.filesystem)),
        },
    }
}

/// Whether the device of a volume is looked at once more when its analysis
/// is done: the journal of an offline ext4 volume was replayed for it.
pub open spec fn is_checked_again(volume: VolumeView, analyzed: VolumeView) -> bool {
    mounting::is_offline_ext4(volume) && !analyzed.read_only
}

/// Tells whether the device of a volume is looked at once more.
pub fn needs_final_check(volume: &Volume, analyzed: &Volume) -> (yes: bool)
    ensures
        yes == is_checked_again(volume@, analyzed@),
{
    mounting::recovery_is_open(volume) && !analyzed.read_only
}

/// What a job that failed tells: a cancelled one says so, any other gives
/// its error.
pub open spec fn failure_event(job_id: JobId, failure: ErrorView) -> EventView {
    match failure {
        ErrorView::Cancelled => EventView::JobCancelled { job_id },
        _ => EventView::Failed { job_id: Some(job_id), message: error::error_text(failure) },
    }
}

/// Tells of a job that failed.
pub fn job_failure(job_id: JobId, failure: &ServiceError) -> (event: ServiceEvent)
    ensures
        event@ == failure_event(job_id, failure@),
{
    match failure {
        ServiceError::Cancelled => ServiceEvent::JobCancelled { job_id },
        _ => ServiceEvent::Failed { job_id: Some(job_id), message: failure.message() },
    }
}

/// Tells of a job that failed before its analysis began.
pub fn preparation_failure(job_id: JobId, failure: &ServiceError) -> (event: ServiceEvent)
    ensures
        event@ == (EventView::Failed {
            job_id: Some(job_id),
            message: error::error_text(failure@),
        }),
{
    ServiceEvent::Failed { job_id: Some(job_id), message: failure.message() }
}

/// A defragmentation that has begun: the owner's end of its job, and what
/// executes the plan.
pub struct StartedDefrag {
    pub handle: JobHandle,
    pub writer: Ext4Writer,
}

/// What beginning to execute a plan gives, over views.
pub open spec fn defrag_outcome(result: Result<StartedDefrag, ServiceError>) -> Result<
    (HandleView, ext4_writer::WriterView),
    ErrorView,
> {
    match result {
        Ok(started) => Ok((started.handle@, started.writer@)),
        Err(e) => Err(e@),
    }
}

/// The job that is begun for a plan, or why none is.
pub open spec fn defrag_start(client: ClientView, id: PlanId) -> Result<
    (HandleView, ext4_writer::WriterView),
    ErrorView,
> {
    let job_id = JobId(client.next_job);
    if !client.plans.contains_key(id.0) {
        Err(ErrorView::PlanNotFound(id))
    } else {
        match client.plans[id.0]@ {
            PlanView::Ext4(plan) => if plan.summary.requirements.available_in_this_build {
                Ok(
                    (
                        new_handle(job_id, EventView::DefragStarted { job_id, plan_id: id }),
                        ext4_writer::new_writer(plan, job_id),
                    ),
                )
            } else {
                Err(ErrorView::ExecutionUnavailable)
            },
            PlanView::Fat { summary } => Err(ErrorView::ExecutionUnavailable),
        }
    }
}

/// What preparing a plan gives, over views.
pub open spec fn plan_outcome(result: Result<(PlanId, PlanSummary), ServiceError>) -> Result<
    (PlanId, PlanSummaryView),
    ErrorView,
> {
    match result {
        Ok((id, summary)) => Ok((id, summary@)),
        Err(e) => Err(e@),
    }
}

impl InProcessClient {
    /// A service that has done nothing yet.
    pub fn new() -> (client: InProcessClient)
        ensures
            client@ == (ClientView {
                backends: backend::known_backends(),
                analyses: Map::empty(),
                plans: Map::empty(),
                next_job: 1,
                next_analysis: 1,
                next_plan: 1,
            }),
    {
        let client = InProcessClient {
            backends: backend::default_backends(),
            analyses: HashMap::new(),
            plans: HashMap::new(),
            next_job: 1,
            next_analysis: 1,
            next_plan: 1,
        };
        assert(client@.analyses =~= Map::empty());
        assert(client@.plans =~= Map::empty());
        client
    }

    /// Lists the volumes.
    pub fn list_volumes(&self, around: &Surroundings) -> (volumes: Result<Vec<Volume>, ServiceError>)
        ensures
            mounts::listing(volumes) == mounts::discovered(around@, self@.backends),
    {
        mounts::discover(around, &self.backends)
    }

    /// Says what must be unmounted to take a volume offline.
    pub fn unmount_volume(&self, volume_id: VolumeId, around: &Surroundings) -> (target: Result<
        Option<FsPath>,
        ServiceError,
    >)
        ensures
            match volume_for(around@, self@.backends, volume_id) {
                Err(failure) => target matches Err(e) && e@ == failure,
                Ok(volume) => match target {
                    Ok(directory) => unmount_request(volume) == Ok::<Option<Seq<u8>>, ErrorView>(
                        views::opt(directory),
                    ),
                    Err(e) => unmount_request(volume) == Err::<Option<Seq<u8>>, ErrorView>(e@),
                },
            },
    {
        let volume: Volume = match find_volume(around, &self.backends, volume_id) {
            Err(e) => {
                return Err(e);
            },
            Ok(volume) => volume,
        };
        if !backend::names_classic_fat(volume.filesystem.as_str()) {
            let mut reason: String = volume.filesystem.clone();
            text::push_text(&mut reason, " does not require offline FAT access");
            return Err(ServiceError::UnmountUnavailable(reason));
        }
        mounting::unmount(&volume)
    }

    /// Begins an analysis that never writes to the volume.
    pub fn start_analysis(&mut self, volume_id: VolumeId, around: &Surroundings) -> (started: Result<
        StartedAnalysis,
        ServiceError,
    >)
        ensures
            error::outcome(started) == analysis_start(old(self)@, around@, volume_id, false),
            final(self)@ == (if started is Ok {
                ClientView { next_job: following(old(self)@.next_job), ..old(self)@ }
            } else {
                old(self)@
            }),
    {
        self.start_analysis_inner(volume_id, around, false)
    }

    /// Begins an analysis and permits a private mount for writing solely
    /// when the journal of an offline ext4 volume must be replayed first.
    /// Callers must obtain modification authorization before they take this
    /// path.
    pub fn start_analysis_allowing_recovery(
        &mut self,
        volume_id: VolumeId,
        around: &Surroundings,
    ) -> (started: Result<StartedAnalysis, ServiceError>)
        ensures
            error::outcome(started) == analysis_start(old(self)@, around@, volume_id, true),
            final(self)@ == (if started is Ok {
                ClientView { next_job: following(old(self)@.next_job), ..old(self)@ }
            } else {
                old(self)@
            }),
    {
        self.start_analysis_inner(volume_id, around, true)
    }

    /// Tells whether the journal of a volume must be replayed before it can
    /// be analyzed.
    pub fn analysis_requires_recovery(
        &self,
        volume_id: VolumeId,
        around: &Surroundings,
        reading: &DeviceReading,
    ) -> (result: Result<bool, ServiceError>)
        requires
            is_whole(reading@),
        ensures
            match volume_for(around@, self@.backends, volume_id) {
                Err(failure) => result matches Err(e) && e@ == failure,
                Ok(volume) => match result {
                    Ok(needed) => recovery_need(volume, reading@) == Ok::<bool, ErrorView>(needed),
                    Err(e) => recovery_need(volume, reading@) == Err::<bool, ErrorView>(e@),
                },
            },
    {
        match find_volume(around, &self.backends, volume_id) {
            Err(e) => Err(e),
            Ok(volume) => needs_recovery(&volume, reading),
        }
    }

    fn start_analysis_inner(
        &mut self,
        volume_id: VolumeId,
        around: &Surroundings,
        allow_journal_recovery: bool,
    ) -> (started: Result<StartedAnalysis, ServiceError>)
        ensures
            error::outcome(started) == analysis_start(
                old(self)@,
                around@,
                volume_id,
                allow_journal_recovery,
            ),
            final(self)@ == (if started is Ok {
                ClientView { next_job: following(old(self)@.next_job), ..old(self)@ }
            } else {
                old(self)@
            }),
    {
        let volume: Volume = match find_volume(around, &self.backends, volume_id) {
            Err(e) => {
                return Err(e);
            },
            Ok(volume) => volume,
        };
        let supported: bool = match &volume.support {
            SupportStatus::ReadOnly => true,
            SupportStatus::Defragmentable => true,
            SupportStatus::Unsupported { .. } => false,
        };
        if !supported {
            return Err(ServiceError::UnsupportedFilesystem(volume.filesystem.clone()));
        }
        let backend: Backend = match backend::find_backend(&self.backends, &volume) {
            None => {
                return Err(ServiceError::UnsupportedFilesystem(volume.filesystem.clone()));
            },
            Some(backend) => backend,
        };
        let job_id: JobId = JobId(self.next_job);
        self.next_job = next_number(self.next_job);
        let handle: JobHandle = JobHandle::new(job_id, ServiceEvent::AnalysisStarted { job_id });
        Ok(StartedAnalysis { handle, volume, backend, allow_journal_recovery })
    }

    /// Takes in how an analysis ended, and says what its job tells last. A
    /// finished analysis is kept under a new identity.
    pub fn finish_analysis(&mut self, job_id: JobId, result: Result<Analysis, ServiceError>) -> (event:
        ServiceEvent)
        ensures
            match result {
                Ok(analysis) => {
                    &&& event@ == (EventView::AnalysisFinished {
                        job_id,
                        analysis_id: AnalysisId(old(self)@.next_analysis),
                        report: analysis.found(),
                    })
                    &&& final(self)@ == (ClientView {
                        analyses: old(self)@.analyses.insert(
                            old(self)@.next_analysis,
                            analysis,
                        ),
                        next_analysis: following(old(self)@.next_analysis),
                        ..old(self)@
                    })
                },
                Err(failure) => event@ == failure_event(job_id, failure@) && final(self)@ == old(
                    self,
                )@,
            },
    {
        match result {
            Err(failure) => job_failure(job_id, &failure),
            Ok(analysis) => {
                let analysis_id: AnalysisId = AnalysisId(self.next_analysis);
                self.next_analysis = next_number(self.next_analysis);
                let report = Box::new(analysis.report().clone());
                self.analyses.insert(analysis_id.0, analysis);
                ServiceEvent::AnalysisFinished { job_id, analysis_id, report }
            },
        }
    }

    /// Prepares a plan from a finished analysis. The plan is kept under a
    /// new identity until it is executed.
    pub fn build_plan(&mut self, analysis_id: AnalysisId, policy: &DefragPolicy) -> (result: Result<
        (PlanId, PlanSummary),
        ServiceError,
    >)
        ensures
            may_plan(old(self)@, analysis_id, *policy, final(self)@, plan_outcome(result)),
    {
        let plan: Plan = match self.analyses.get(&analysis_id.0) {
            None => {
                return Err(ServiceError::AnalysisNotFound(analysis_id));
            },
            Some(analysis) => match analysis.build_plan(policy) {
                Err(e) => {
                    return Err(e);
                },
                Ok(plan) => plan,
            },
        };
        let plan_id: PlanId = PlanId(self.next_plan);
        self.next_plan = next_number(self.next_plan);
        let summary: PlanSummary = plan.summary().clone();
        self.plans.insert(plan_id.0, plan);
        Ok((plan_id, summary))
    }

    /// Begins to execute a plan. A plan is executed at most once: it is
    /// taken out, even where it turns out that it cannot be executed.
    pub fn start_defrag(&mut self, plan_id: PlanId) -> (result: Result<StartedDefrag, ServiceError>)
        ensures
            defrag_outcome(result) == defrag_start(old(self)@, plan_id),
            result matches Ok(started) ==> started.writer.wf(),
            final(self)@ == (ClientView {
                plans: old(self)@.plans.remove(plan_id.0),
                next_job: if result is Ok {
                    following(old(self)@.next_job)
                } else {
                    old(self)@.next_job
                },
                ..old(self)@
            }),
    {
        let plan: Plan = match self.plans.remove(&plan_id.0) {
            None => {
                assert(self.plans@ =~= old(self)@.plans.remove(plan_id.0));
                return Err(ServiceError::PlanNotFound(plan_id));
            },
            Some(plan) => plan,
        };
        if !plan.execution_requirements().available_in_this_build {
            return Err(ServiceError::ExecutionUnavailable);
        }
        match plan {
            Plan::Fat(_) => Err(ServiceError::ExecutionUnavailable),
            Plan::Ext4(plan) => {
                let job_id: JobId = JobId(self.next_job);
                self.next_job = next_number(self.next_job);
                let handle: JobHandle = JobHandle::new(
                    job_id,
                    ServiceEvent::DefragStarted { job_id, plan_id },
                );
                Ok(StartedDefrag { handle, writer: Ext4Writer::new(plan, job_id) })
            },
        }
    }

    /// Forgets a finished analysis. One that is not known is forgotten
    /// already.
    pub fn discard_analysis(&mut self, analysis_id: AnalysisId) -> (result: Result<
        (),
        ServiceError,
    >)
        ensures
            result is Ok,
            final(self)@ == (ClientView {
                analyses: old(self)@.analyses.remove(analysis_id.0),
                ..old(self)@
            }),
    {
        let _ = self.analyses.remove(&analysis_id.0);
        assert(self@.analyses =~= old(self)@.analyses.remove(analysis_id.0));
        Ok(())
    }
}

impl Default for InProcessClient {
    fn default() -> (client: Self)
        ensures
            client@.backends == backend::known_backends(),
            client@.analyses == Map::<u64, Analysis>::empty(),
            client@.plans == Map::<u64, Plan>::empty(),
            client@.next_job == 1,
            client@.next_analysis == 1,
            client@.next_plan == 1,
    {
        InProcessClient::new()
    }
}

/// What a job that executed a plan tells last.
pub open spec fn execution_event(
    job_id: JobId,
    result: Result<ExecutionView, ErrorView>,
) -> EventView {
    match result {
        Ok(execution) => if execution.stopped {
            EventView::DefragStopped { job_id, report: execution.report }
        } else {
            EventView::DefragFinished { job_id, report: execution.report }
        },
        Err(failure) => failure_event(job_id, failure),
    }
}

/// Tells how a job that executed a plan ended.
pub fn finish_defrag(job_id: JobId, result: Result<PlanExecution, ServiceError>) -> (event:
    ServiceEvent)
    ensures
        event@ == execution_event(job_id, error::outcome(result)),
{
    match result {
        Ok(execution) => {
            let report = Box::new(execution.report);
            if execution.stopped {
                ServiceEvent::DefragStopped { job_id, report }
            } else {
                ServiceEvent::DefragFinished { job_id, report }
            }
        },
        Err(failure) => job_failure(job_id, &failure),
    }
}

// ---------------------------------------------------------------------
// What holds of the service
// ---------------------------------------------------------------------

/// A volume that can be found can be analyzed exactly where its support says
/// so: the family that gave it its support is found again.
pub proof fn lemma_supported_volumes_have_a_backend(
    entry: mounts::EntryView,
    table: Seq<mounts::MountInfoView>,
    sizes: Seq<mounts::MountSize>,
    backends: Seq<Backend>,
)
    ensures
        ({
            let volume = mounts::volume_of(entry, table, sizes, backends);
            backend::is_supported(volume.support) <==> backend::first_supporting(
                backends,
                volume.filesystem,
            ) is Some
        }),
{
    let volume = mounts::volume_of(entry, table, sizes, backends);
    lemma_first_supports(backends, volume.filesystem);
}

proof fn lemma_first_supports(backends: Seq<Backend>, filesystem: Seq<char>)
    ensures
        backend::first_supporting(backends, filesystem) matches Some(found)
            ==> backend::is_supported(found.support_for(filesystem)),
    decreases backends.len(),
{
    if backends.len() > 0 && !backend::is_supported(backends[0].support_for(filesystem)) {
        lemma_first_supports(backends.skip(1), filesystem);
    }
}

/// What preparing a plan does to a client, and what it gives.
pub open spec fn may_plan(
    before: ClientView,
    analysis_id: AnalysisId,
    policy: DefragPolicy,
    after: ClientView,
    outcome: Result<(PlanId, PlanSummaryView), ErrorView>,
) -> bool {
    if !before.analyses.contains_key(analysis_id.0) {
        &&& outcome == Err::<(PlanId, PlanSummaryView), ErrorView>(
            ErrorView::AnalysisNotFound(analysis_id),
        )
        &&& after == before
    } else {
        match before.analyses[analysis_id.0].planned(policy) {
            Err(failure) => {
                &&& outcome == Err::<(PlanId, PlanSummaryView), ErrorView>(failure)
                &&& after == before
            },
            Ok(planned) => {
                &&& outcome == Ok::<(PlanId, PlanSummaryView), ErrorView>(
                    (PlanId(before.next_plan), plan::summary_of(planned)),
                )
                &&& after.plans.contains_key(before.next_plan)
                &&& after.plans[before.next_plan]@ == planned
                &&& after == (ClientView {
                    plans: before.plans.insert(
                        before.next_plan,
                        after.plans[before.next_plan],
                    ),
                    next_plan: following(before.next_plan),
                    ..before
                })
            },
        }
    }
}

/// A request for a plan.
pub struct PlanCall {
    pub analysis_id: AnalysisId,
    pub policy: DefragPolicy,
    pub outcome: Result<(PlanId, PlanSummaryView), ErrorView>,
}

/// Whether a client goes through states as requests for plans, one after the
/// other, take it.
pub open spec fn is_planning(states: Seq<ClientView>, calls: Seq<PlanCall>) -> bool {
    &&& states.len() == calls.len() + 1
    &&& forall|i: int|
        #![trigger calls[i]]
        0 <= i < calls.len() ==> may_plan(
            states[i],
            calls[i].analysis_id,
            calls[i].policy,
            states[i + 1],
            calls[i].outcome,
        )
}

/// How many of the first `n` requests succeeded.
pub open spec fn successes(calls: Seq<PlanCall>, n: int) -> nat
    decreases n,
{
    if n <= 0 {
        0
    } else if calls[n - 1].outcome is Ok {
        successes(calls, n - 1) + 1
    } else {
        successes(calls, n - 1)
    }
}

proof fn lemma_plans_so_far(states: Seq<ClientView>, calls: Seq<PlanCall>, n: int)
    requires
        is_planning(states, calls),
        0 <= n <= calls.len(),
    ensures
        states[n].next_plan == (states[0].next_plan + successes(calls, n))
            % 0x1_0000_0000_0000_0000,
        states[n].analyses == states[0].analyses,
    decreases n,
{
    if n > 0 {
        lemma_plans_so_far(states, calls, n - 1);
        let call = calls[n - 1];
        let sum = states[0].next_plan + successes(calls, n - 1);
        let next = following(states[n - 1].next_plan);
        assert(next == (sum + 1) % 0x1_0000_0000_0000_0000) by {
            assert(states[n - 1].next_plan == sum % 0x1_0000_0000_0000_0000);
        }
    }
}

/// Plans are numbered in the order in which they are prepared, from the
/// number that a client is at: the first that succeeds of a new client is
/// plan 1, the next plan 2. A request that fails uses up no number and stores
/// no plan; no request changes the analyses.
pub proof fn lemma_plans_are_numbered_in_order(
    states: Seq<ClientView>,
    calls: Seq<PlanCall>,
    n: int,
)
    requires
        is_planning(states, calls),
        0 <= n < calls.len(),
    ensures
        match calls[n].outcome {
            Ok((id, summary)) => {
                &&& id.0 == (states[0].next_plan + successes(calls, n))
                    % 0x1_0000_0000_0000_0000
                &&& states[n + 1].plans.contains_key(id.0)
                &&& plan::summary_of(states[n + 1].plans[id.0]@) == summary
            },
            Err(e) => states[n + 1] == states[n],
        },
        !states[0].analyses.contains_key(calls[n].analysis_id.0) ==> calls[n].outcome == Err::<
            (PlanId, PlanSummaryView),
            ErrorView,
        >(ErrorView::AnalysisNotFound(calls[n].analysis_id)),
        states[n + 1].analyses == states[0].analyses,
{
    lemma_plans_so_far(states, calls, n);
    lemma_plans_so_far(states, calls, n + 1);
    let call = calls[n];
}

/// Every job ends with one of the events that end a job.
pub proof fn lemma_jobs_end(
    job_id: JobId,
    failure: ErrorView,
    execution: Result<ExecutionView, ErrorView>,
)
    ensures
        ends_job(failure_event(job_id, failure)),
        ends_job(execution_event(job_id, execution)),
{
}

/// Whether nothing follows an event of a job.
pub open spec fn ends_job(event: EventView) -> bool {
    event is AnalysisFinished || event is DefragFinished || event is DefragStopped || event
        is JobCancelled || event is Failed
}

/// Tells whether nothing follows an event of a job.
pub fn is_terminal(event: &ServiceEvent) -> (yes: bool)
    ensures
        yes == ends_job(event@),
{
    match event {
        ServiceEvent::AnalysisFinished { .. } => true,
        ServiceEvent::DefragFinished { .. } => true,
        ServiceEvent::DefragStopped { .. } => true,
        ServiceEvent::JobCancelled { .. } => true,
        ServiceEvent::Failed { .. } => true,
        _ => false,
    }
}

} // verus!
