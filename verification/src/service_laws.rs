//! What holds of every request to the service and to its helper: which
//! requests begin a job, how a job ends, and what is sent to a client.

use vstd::prelude::*;

use crate::arith;
use crate::backend;
use crate::domain::{
    AnalysisId, AnalysisReportView, EventView, FileReportView, JobId, MountState, PlanId,
    VolumeId, VolumeView,
};
use crate::error;
use crate::error::ErrorView;
use crate::file_laws;
use crate::helper;
use crate::helper::{AuthorizationMode, EntryView, HelperView, RefusalView};
use crate::mounting;
use crate::mounting::MountStep;
use crate::mounts::SurroundingsView;
use crate::plan::{ExecutionView, PlanView};
use crate::service;
use crate::service::{ClientView, ReadingView};

verus! {

// ---------------------------------------------------------------------
// Beginning a job
// ---------------------------------------------------------------------

/// A volume is found by its identity exactly where one of the volumes has it.
pub proof fn lemma_volumes_are_found(volumes: Seq<VolumeView>, id: VolumeId)
    ensures
        service::volume_by_id(volumes, id) matches Some(volume) ==> volume.id == id
            && volumes.contains(volume),
        (exists|i: int| 0 <= i < volumes.len() && (#[trigger] volumes[i]).id == id)
            ==> service::volume_by_id(volumes, id) is Some,
    decreases volumes.len(),
{
    if volumes.len() > 0 && volumes[0].id != id {
        let rest = volumes.skip(1);
        lemma_volumes_are_found(rest, id);
        if let Some(volume) = service::volume_by_id(rest, id) {
            let k = choose|k: int| 0 <= k < rest.len() && rest[k] == volume;
            assert(volumes[k + 1] == volume);
        }
        if exists|i: int| 0 <= i < volumes.len() && (#[trigger] volumes[i]).id == id {
            let i = choose|i: int| 0 <= i < volumes.len() && (#[trigger] volumes[i]).id == id;
            assert(rest[i - 1] == volumes[i]);
        }
    }
}

/// An analysis is begun exactly where the volume is found, its support says
/// that it can be read, and a family knows it. It is one of that volume, and
/// its job has the next number and says first that it has begun.
pub proof fn lemma_analyses_are_begun(
    client: ClientView,
    around: SurroundingsView,
    id: VolumeId,
    allow: bool,
    volume: VolumeView,
)
    requires
        service::volume_for(around, client.backends, id) == Ok::<VolumeView, ErrorView>(volume),
    ensures
        match service::analysis_start(client, around, id, allow) {
            Ok(started) => {
                &&& volume.support is ReadOnly || volume.support is Defragmentable
                &&& started.volume == volume
                &&& started.allow_journal_recovery == allow
                &&& started.handle.job_id == JobId(client.next_job)
                &&& started.handle.events.len() == 1
                &&& started.handle.events[0] == (EventView::AnalysisStarted {
                    job_id: JobId(client.next_job),
                })
                &&& !started.handle.control.paused && !started.handle.control.cancelled
                &&& backend::first_supporting(client.backends, volume.filesystem) == Some(
                    started.backend,
                )
            },
            Err(failure) => {
                &&& failure == ErrorView::UnsupportedFilesystem(volume.filesystem)
                &&& volume.support is Unsupported || backend::first_supporting(
                    client.backends,
                    volume.filesystem,
                ) is None
            },
        },
{
}

/// A defragmentation is begun exactly where the plan is kept, is one for
/// ext4, and can be executed; it executes that plan.
pub proof fn lemma_defragmentations_are_begun(client: ClientView, id: PlanId)
    ensures
        match service::defrag_start(client, id) {
            Ok((handle, writer)) => {
                &&& client.plans.contains_key(id.0)
                &&& client.plans[id.0]@ == PlanView::Ext4(writer.plan)
                &&& writer.plan.summary.requirements.available_in_this_build
                &&& writer.job_id == handle.job_id
                &&& handle.job_id == JobId(client.next_job)
                &&& handle.events.len() == 1
                &&& handle.events[0] == (EventView::DefragStarted {
                    job_id: handle.job_id,
                    plan_id: id,
                })
                &&& writer.index == 0 && writer.files_completed == 0 && writer.bytes_moved == 0
                &&& writer.report == writer.plan.report
            },
            Err(failure) => {
                &&& !client.plans.contains_key(id.0) ==> failure == ErrorView::PlanNotFound(id)
                &&& client.plans.contains_key(id.0) ==> {
                    &&& failure == ErrorView::ExecutionUnavailable
                    &&& client.plans[id.0]@ matches PlanView::Ext4(plan)
                        ==> !plan.summary.requirements.available_in_this_build
                }
            },
        },
{
}

/// How a job ended is told: a finished one with its report, a stopped one so,
/// a cancelled one so, and any other failure with its text. Each of these is
/// the last thing that a job tells, and nothing else is.
pub proof fn lemma_ends_are_told(job_id: JobId, execution: ExecutionView, failure: ErrorView)
    ensures
        service::execution_event(job_id, Ok(execution)) == (if execution.stopped {
            EventView::DefragStopped { job_id, report: execution.report }
        } else {
            EventView::DefragFinished { job_id, report: execution.report }
        }),
        failure == ErrorView::Cancelled ==> service::execution_event(job_id, Err(failure)) == (
        EventView::JobCancelled { job_id }),
        failure != ErrorView::Cancelled ==> service::execution_event(job_id, Err(failure)) == (
        EventView::Failed { job_id: Some(job_id), message: error::error_text(failure) }),
        service::ends_job(service::execution_event(job_id, Ok(execution))),
        service::ends_job(service::execution_event(job_id, Err(failure))),
        forall|event: EventView| #[trigger]
            service::ends_job(event) <==> match event {
                EventView::AnalysisFinished { .. } => true,
                EventView::DefragFinished { .. } => true,
                EventView::DefragStopped { .. } => true,
                EventView::JobCancelled { .. } => true,
                EventView::Failed { .. } => true,
                _ => false,
            },
{
}

// ---------------------------------------------------------------------
// Mounting
// ---------------------------------------------------------------------

/// A superblock is one of ext4 where it has its mark. It may be written where
/// no error is recorded, and its journal must be replayed where that is
/// recorded.
pub proof fn lemma_superblocks_are_read(superblock: Seq<u8>)
    requires
        superblock.len() == 1024,
    ensures
        ({
            let marked = superblock[0x38] == 0x53 && superblock[0x39] == 0xef;
            let state = (superblock[0x3a] + 256 * superblock[0x3b]) as u16;
            let failed = state & 0x0002u16 != 0;
            &&& mounting::writability(superblock) is Ok <==> marked && !failed
            &&& mounting::recovery(superblock) is Ok <==> marked && !failed
            &&& marked && failed ==> mounting::recovery(superblock) == Err::<bool, ErrorView>(
                mounting::has_errors_error(),
            )
            &&& mounting::recovery(superblock) matches Ok(needed) ==> needed == (arith::le_value(
                superblock.subrange(0x60, 0x64),
            ) as u32 & 0x0004u32 != 0)
        }),
{
    arith::lemma_le_value_2(superblock.subrange(0x38, 0x3a));
    arith::lemma_le_value_2(superblock.subrange(0x3a, 0x3c));
    let low = superblock[0x38] as int;
    let high = superblock[0x39] as int;
    assert(low + 256 * high == 0xef53 <==> low == 0x53 && high == 0xef);
}

/// The journal of a volume must be replayed only where the volume is ext4 and
/// not mounted; it is asked of the device only where that is still the device
/// of the volume.
pub proof fn lemma_recovery_is_asked_of_the_device(volume: VolumeView, reading: ReadingView)
    ensures
        ({
            let need = service::recovery_need(volume, reading);
            let offline = volume.mount_state == MountState::Unmounted && volume.filesystem
                == "ext4"@;
            &&& !offline ==> need == Ok::<bool, ErrorView>(false)
            &&& offline && need is Ok ==> {
                &&& reading.facts matches Ok(facts) && facts.is_block_device
                    && mounting::major_of(facts.device) == volume.device_major
                    && mounting::minor_of(facts.device) == volume.device_minor
                &&& reading.superblock matches Ok(bytes) && mounting::recovery(bytes) == need
            }
        }),
{
}

/// Whether a step stands in a list.
pub open spec fn has_step(steps: Seq<MountStep>, step: MountStep) -> bool {
    steps.contains(step)
}

/// A volume is mounted for a job exactly where it is not mounted, in a
/// namespace of the job's own that was made private before, and its device
/// was looked at first. A volume that is mounted for reading is not written.
pub proof fn lemma_jobs_mount_privately(volume: VolumeView, writable: bool)
    ensures
        ({
            let steps = mounting::mount_steps_for(volume, writable);
            let n = steps.len() as int;
            &&& volume.mount_state == MountState::Unmounted ==> {
                &&& n >= 6
                &&& steps[n - 5] == MountStep::EnterNamespace
                &&& steps[n - 4] == MountStep::MakePrivate
                &&& steps[n - 3] == MountStep::CreateDirectory
                &&& steps[n - 2] == MountStep::Mount
                &&& steps[n - 1] == MountStep::Identify
                &&& steps.take(n - 5).contains(MountStep::CheckDevice)
                &&& volume.filesystem == "ext4"@ ==> steps.take(n - 5).contains(
                    if writable {
                        MountStep::CheckWritable
                    } else {
                        MountStep::CheckClean
                    },
                )
            }
            &&& volume.mount_state != MountState::Unmounted ==> {
                &&& !has_step(steps, MountStep::Mount)
                &&& !has_step(steps, MountStep::EnterNamespace)
                &&& has_step(steps, MountStep::RefuseReadOnly) <==> writable && volume.mount_state
                    == MountState::MountedReadOnly
                &&& writable && volume.filesystem == "ext4"@ ==> has_step(
                    steps,
                    MountStep::CheckWritable,
                )
            }
        }),
{
    let steps = mounting::mount_steps_for(volume, writable);
    let n = steps.len() as int;
    let ext4 = volume.filesystem == "ext4"@;
    if volume.mount_state == MountState::Unmounted {
        let front = steps.take(n - 5);
        if writable && ext4 {
            assert(front[0] == MountStep::CheckDevice);
            assert(front[1] == MountStep::CheckWritable);
        } else {
            assert(front[0] == MountStep::CheckDevice);
            if ext4 {
                assert(front[1] == MountStep::CheckClean);
            }
        }
    } else {
        if writable && ext4 {
            assert(steps[1] == MountStep::CheckWritable);
        }
        if writable && volume.mount_state != MountState::MountedReadWrite {
            assert(steps[n - 1] == MountStep::RefuseReadOnly);
        }
    }
}

/// A volume that was mounted for a job is the same volume, at the place where
/// it was mounted; its sizes are those of the mount where they are known.
pub proof fn lemma_mounted_volumes_stay_the_same(
    volume: VolumeView,
    directory: Seq<u8>,
    mount_id: u64,
    writable: bool,
    capacity: u64,
    free: u64,
)
    ensures
        ({
            let mounted = mounting::mounted_for_job(
                volume,
                directory,
                mount_id,
                writable,
                Some((capacity, free)),
            );
            &&& mounted.mount_point == Some(directory)
            &&& mounted.mount_id == Some(mount_id)
            &&& mounted.read_only == !writable
            &&& mounted.id == volume.id
            &&& mounted.filesystem == volume.filesystem
            &&& mounted.source == volume.source
            &&& mounted.device_major == volume.device_major
            &&& mounted.device_minor == volume.device_minor
            &&& mounted.mount_state == volume.mount_state
            &&& mounted.capacity_bytes == capacity
            &&& mounted.free_bytes == Some(free)
            &&& free <= capacity ==> mounted.used_bytes == Some((capacity - free) as u64)
        }),
        ({
            let mounted = mounting::mounted_for_job(volume, directory, mount_id, writable, None);
            &&& mounted.mount_point == Some(directory)
            &&& mounted.mount_id == Some(mount_id)
            &&& mounted.capacity_bytes == volume.capacity_bytes
            &&& mounted.used_bytes == volume.used_bytes
            &&& mounted.free_bytes == volume.free_bytes
        }),
{
}

/// Only classic FAT volumes are unmounted, at the place where they are
/// mounted; one that is not mounted needs nothing.
pub proof fn lemma_only_fat_is_unmounted(volume: VolumeView)
    ensures
        match service::unmount_request(volume) {
            Ok(target) => {
                &&& volume.filesystem == "fat"@ || volume.filesystem == "msdos"@
                    || volume.filesystem == "vfat"@
                &&& volume.mount_state == MountState::Unmounted ==> target is None
                &&& volume.mount_state != MountState::Unmounted ==> target == volume.mount_point
                    && target is Some
            },
            Err(failure) => {
                &&& failure is UnmountUnavailable
                &&& volume.filesystem == "vfat"@ || volume.filesystem == "fat"@
                    || volume.filesystem == "msdos"@ ==> {
                    &&& volume.mount_state != MountState::Unmounted
                    &&& volume.mount_point matches Some(directory) ==> directory.contains(0u8)
                }
            },
        },
{
}

// ---------------------------------------------------------------------
// The helper
// ---------------------------------------------------------------------

/// Whether a file is one of the files that are sent.
pub open spec fn is_sent(files: Seq<FileReportView>, file: FileReportView) -> bool {
    files.contains(file)
}

proof fn lemma_sent_files(files: Seq<FileReportView>)
    ensures
        ({
            let sent = helper::fragmented(files);
            &&& sent.len() == file_laws::fragmented_count(files)
            &&& forall|i: int|
                0 <= i < files.len() && files[i].excess_runs > 0 ==> #[trigger] is_sent(
                    sent,
                    files[i],
                )
            &&& forall|k: int|
                0 <= k < sent.len() ==> (#[trigger] sent[k]).excess_runs > 0 && is_sent(
                    files,
                    sent[k],
                )
        }),
    decreases files.len(),
{
    if files.len() > 0 {
        let rest = files.drop_last();
        let before = helper::fragmented(rest);
        let sent = helper::fragmented(files);
        lemma_sent_files(rest);
        assert forall|i: int|
            0 <= i < files.len() && files[i].excess_runs > 0 implies #[trigger] is_sent(
            sent,
            files[i],
        ) by {
            if i < rest.len() {
                assert(rest[i] == files[i]);
                assert(is_sent(before, rest[i]));
                let k = choose|k: int| 0 <= k < before.len() && before[k] == rest[i];
                assert(sent[k] == before[k]);
            } else {
                assert(sent[sent.len() - 1] == files[i]);
            }
        }
        assert forall|k: int| 0 <= k < sent.len() implies (#[trigger] sent[k]).excess_runs > 0
            && is_sent(files, sent[k]) by {
            if k < before.len() {
                assert(sent[k] == before[k]);
                assert(is_sent(rest, before[k]));
                let i = choose|i: int| 0 <= i < rest.len() && rest[i] == before[k];
                assert(files[i] == rest[i]);
            } else {
                assert(files[files.len() - 1] == sent[k]);
            }
        }
    }
}

/// A finished analysis is sent to a client with all its fragmented files and
/// no others; its map, its counts and its warnings are sent whole, and every
/// other event is sent as it is.
pub proof fn lemma_fragmented_files_are_sent(
    job_id: JobId,
    analysis_id: AnalysisId,
    report: AnalysisReportView,
    event: EventView,
)
    ensures
        helper::sent_event(EventView::AnalysisFinished { job_id, analysis_id, report }) matches
            EventView::AnalysisFinished { job_id: j, analysis_id: a, report: sent } && {
            &&& j == job_id
            &&& a == analysis_id
            &&& sent.map == report.map
            &&& sent.fragmentation == report.fragmentation
            &&& sent.coverage == report.coverage
            &&& sent.warnings == report.warnings
            &&& sent.volume == report.volume
            &&& sent.completeness == report.completeness
            &&& sent.files.len() == file_laws::fragmented_count(report.files)
            &&& forall|i: int|
                0 <= i < report.files.len() && report.files[i].excess_runs > 0
                    ==> #[trigger] is_sent(sent.files, report.files[i])
            &&& forall|k: int|
                0 <= k < sent.files.len() ==> (#[trigger] sent.files[k]).excess_runs > 0 && is_sent(
                    report.files,
                    sent.files[k],
                )
        },
        !(event is AnalysisFinished) ==> helper::sent_event(event) == event,
{
    lemma_sent_files(report.files);
}

proof fn lemma_removed(list: Seq<EntryView>, id: u64)
    ensures
        forall|k: int|
            0 <= k < helper::without(list, id).len() ==> (#[trigger] helper::without(list, id)[k]).id
                != id && list.contains(helper::without(list, id)[k]),
        forall|i: int|
            0 <= i < list.len() && (#[trigger] list[i]).id != id ==> helper::without(
                list,
                id,
            ).contains(list[i]),
    decreases list.len(),
{
    if list.len() > 0 {
        let rest = list.drop_last();
        let before = helper::without(rest, id);
        let after = helper::without(list, id);
        lemma_removed(rest, id);
        assert forall|k: int| 0 <= k < after.len() implies (#[trigger] after[k]).id != id
            && list.contains(after[k]) by {
            if k < before.len() {
                assert(after[k] == before[k]);
                let i = choose|i: int| 0 <= i < rest.len() && rest[i] == before[k];
                assert(list[i] == rest[i]);
            } else {
                assert(list[list.len() - 1] == after[k]);
            }
        }
        assert forall|i: int| 0 <= i < list.len() && (#[trigger] list[i]).id != id implies
            after.contains(list[i]) by {
            if i < rest.len() {
                assert(rest[i] == list[i]);
                let k = choose|k: int| 0 <= k < before.len() && before[k] == rest[i];
                assert(after[k] == before[k]);
            } else {
                assert(after[after.len() - 1] == list[i]);
            }
        }
    }
}

/// An event that ends a job lets the job go, and no other job with it; any
/// other event keeps all jobs. A finished analysis is kept for its owner.
pub proof fn lemma_ended_jobs_are_let_go(
    h: HelperView,
    job_id: u64,
    owner: Seq<char>,
    event: EventView,
    now: u64,
    i: int,
)
    requires
        0 <= i < h.jobs.len(),
    ensures
        ({
            let after = helper::after_event(h, job_id, owner, event, now);
            &&& after.plans == h.plans
            &&& !service::ends_job(event) ==> after.jobs == h.jobs
            &&& service::ends_job(event) ==> {
                &&& forall|k: int|
                    0 <= k < after.jobs.len() ==> (#[trigger] after.jobs[k]).id != job_id
                &&& h.jobs[i].id != job_id ==> after.jobs.contains(h.jobs[i])
            }
            &&& event matches EventView::AnalysisFinished { job_id: j, analysis_id, report }
                ==> after.analyses.len() > 0 && after.analyses.last() == (EntryView {
                id: analysis_id.0,
                owner,
                last_used: now,
            })
            &&& !(event is AnalysisFinished) ==> after.analyses == h.analyses
        }),
{
    lemma_removed(h.jobs, job_id);
}

/// A caller is known by its name on the bus; without one it is refused. The
/// peer that started the helper has one name.
pub proof fn lemma_callers_are_known_by_name(sender: Option<Seq<char>>, a: Seq<char>, b: Seq<char>)
    ensures
        helper::owner_of(AuthorizationMode::PolicyKit, sender) is Ok <==> sender is Some,
        helper::owner_of(AuthorizationMode::PolicyKit, Some(a)) == helper::owner_of(
            AuthorizationMode::PolicyKit,
            Some(b),
        ) <==> a == b,
        helper::owner_of(AuthorizationMode::PolicyKit, None) matches Err(e) && e
            is AccessDenied,
        helper::owner_of(AuthorizationMode::TrustedPeer, sender) == Ok::<Seq<char>, RefusalView>(
            "development-peer"@,
        ),
{
    let first = helper::owner_of(AuthorizationMode::PolicyKit, Some(a));
    let second = helper::owner_of(AuthorizationMode::PolicyKit, Some(b));
    assert(first->Ok_0 == a);
    assert(second->Ok_0 == b);
}

/// An entry of a list can be reached by its owner, one of another owner is
/// denied, and one that is not there is not known.
pub proof fn lemma_entries_are_reached(
    list: Seq<EntryView>,
    noun: Seq<char>,
    id: u64,
    owner: Seq<char>,
    i: int,
)
    requires
        helper::numbers_differ(list),
    ensures
        0 <= i < list.len() && list[i].id == id && list[i].owner == owner ==> helper::access(
            list,
            noun,
            id,
            owner,
        ) == Ok::<int, RefusalView>(i),
        0 <= i < list.len() && list[i].id == id && list[i].owner != owner ==> helper::access(
            list,
            noun,
            id,
            owner,
        ) matches Err(RefusalView::AccessDenied(_)),
        (forall|k: int| 0 <= k < list.len() ==> (#[trigger] list[k]).id != id) ==> helper::access(
            list,
            noun,
            id,
            owner,
        ) matches Err(RefusalView::UnknownObject(_)),
{
    lemma_place(list, id);
    let at = helper::place(list, id);
    if 0 <= i < list.len() && list[i].id == id {
        assert(at <= i) by {
            if i < at {
                assert(list[i].id != id);
            }
        }
        assert(at == i) by {
            if at < i {
                assert(list[at].id != list[i].id);
            }
        }
    }
}

proof fn lemma_place(list: Seq<EntryView>, id: u64)
    ensures
        0 <= helper::place(list, id) <= list.len(),
        helper::place(list, id) < list.len() ==> list[helper::place(list, id)].id == id,
        forall|k: int| 0 <= k < helper::place(list, id) ==> (#[trigger] list[k]).id != id,
    decreases list.len(),
{
    if list.len() > 0 && list[0].id != id {
        let rest = list.skip(1);
        lemma_place(rest, id);
        assert forall|k: int| 0 <= k < helper::place(list, id) implies (#[trigger] list[k]).id
            != id by {
            if k > 0 {
                assert(rest[k - 1] == list[k]);
            }
        }
    }
}

} // verus!
