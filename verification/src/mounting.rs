//! How a volume is made ready for a job: what must hold of its device and of
//! its superblock, and how it is mounted for the job alone.

use vstd::prelude::*;

use crate::arith;
use crate::domain::{MountState, Volume, VolumeView};
use crate::error;
use crate::error::{ErrorView, IoKind, OsError, ServiceError};
use crate::path;
use crate::path::FsPath;
use crate::text;
use crate::views;

verus! {

// ---------------------------------------------------------------------
// Devices
// ---------------------------------------------------------------------

/// The major number in the number of a device.
pub open spec fn major_of(device: u64) -> u32 {
    (((device & 0x0000_0000_000f_ff00) >> 8) | ((device & 0xffff_f000_0000_0000) >> 32)) as u32
}

/// The minor number in the number of a device.
pub open spec fn minor_of(device: u64) -> u32 {
    ((device & 0x0000_0000_0000_00ff) | ((device & 0x0000_0fff_fff0_0000) >> 12)) as u32
}

/// Takes the major number out of the number of a device: `libc::major`,
/// which joins bits 8 to 19 and bits 44 to 63 of it.
#[verifier::external_body]
fn device_major(device: u64) -> (major: u32)
    ensures
        major == major_of(device),
{
    libc::major(device)
}

/// Takes the minor number out of the number of a device: `libc::minor`,
/// which joins bits 0 to 7 and bits 20 to 43 of it.
#[verifier::external_body]
fn device_minor(device: u64) -> (minor: u32)
    ensures
        minor == minor_of(device),
{
    libc::minor(device)
}

/// What the system says of the file that names a device.
#[derive(Clone, Copy, Debug, PartialEq, Eq, Structural)]
pub struct DeviceFacts {
    pub is_block_device: bool,
    pub device: u64,
}

/// Whether a file still names the device of a volume.
pub open spec fn is_device_of(facts: DeviceFacts, volume: VolumeView) -> bool {
    &&& facts.is_block_device
    &&& major_of(facts.device) == volume.device_major
    &&& minor_of(facts.device) == volume.device_minor
}

pub open spec fn changed_device_error() -> ErrorView {
    error::io_failure(
        IoKind::InvalidInput,
        "the selected block device no longer matches the discovered volume"@,
    )
}

/// Makes sure that a file still names the device of a volume.
pub fn validate_block_device(volume: &Volume, facts: DeviceFacts) -> (result: Result<
    (),
    ServiceError,
>)
    ensures
        (result is Ok) == is_device_of(facts, volume@),
        result matches Err(e) ==> e@ == changed_device_error(),
{
    if !facts.is_block_device || device_major(facts.device) != volume.device_major || device_minor(
        facts.device,
    ) != volume.device_minor {
        return Err(
            error::io_error(
                IoKind::InvalidInput,
                "the selected block device no longer matches the discovered volume",
            ),
        );
    }
    Ok(())
}

// ---------------------------------------------------------------------
// Superblocks
// ---------------------------------------------------------------------

/// Where the superblock of an ext4 filesystem begins.
pub const EXT4_SUPER_OFFSET: u64 = 1024;

/// The length of a superblock.
pub const EXT4_SUPER_LEN: usize = 1024;

/// What a superblock says of the state of its filesystem.
#[derive(Clone, Copy, Debug, PartialEq, Eq, Structural)]
pub struct Ext4Health {
    pub needs_recovery: bool,
    pub has_errors: bool,
}

/// Whether a superblock is one of ext4.
pub open spec fn is_ext4(superblock: Seq<u8>) -> bool {
    arith::le_value(superblock.subrange(0x38, 0x3a)) == 0xef53
}

/// The state of the filesystem of a superblock.
pub open spec fn health_of(superblock: Seq<u8>) -> Ext4Health {
    Ext4Health {
        needs_recovery: arith::le_value(superblock.subrange(0x60, 0x64)) as u32 & 0x0004u32 != 0,
        has_errors: arith::le_value(superblock.subrange(0x3a, 0x3c)) as u16 & 0x0002u16 != 0,
    }
}

pub open spec fn not_ext4_error() -> ErrorView {
    error::io_failure(IoKind::InvalidData, "the selected device no longer contains ext4"@)
}

/// Reads the state of a filesystem from its superblock.
pub fn ext4_superblock_health(superblock: &[u8]) -> (health: Result<Ext4Health, ServiceError>)
    requires
        superblock@.len() == EXT4_SUPER_LEN,
    ensures
        match health {
            Ok(health) => is_ext4(superblock@) && health == health_of(superblock@),
            Err(e) => !is_ext4(superblock@) && e@ == not_ext4_error(),
        },
{
    if arith::read_u16(superblock, 0x38) != 0xef53 {
        return Err(
            error::io_error(IoKind::InvalidData, "the selected device no longer contains ext4"),
        );
    }
    let features: u32 = arith::read_u32(superblock, 0x60);
    let state: u16 = arith::read_u16(superblock, 0x3a);
    Ok(
        Ext4Health {
            needs_recovery: features & 0x0004 != 0,
            has_errors: state & 0x0002 != 0,
        },
    )
}

pub open spec fn has_errors_error() -> ErrorView {
    ErrorView::UnsafeFilesystem(
        "ext4 is marked as containing errors; keep it unmounted and run e2fsck before analysis or defragmentation"@,
    )
}

pub open spec fn recovery_error() -> ErrorView {
    error::io_failure(
        IoKind::InvalidData,
        "ext4 journal recovery is required; modification authorization is needed to replay it"@,
    )
}

fn ext4_filesystem_has_errors() -> (failure: ServiceError)
    ensures
        failure@ == has_errors_error(),
{
    ServiceError::UnsafeFilesystem(
        "ext4 is marked as containing errors; keep it unmounted and run e2fsck before analysis or defragmentation".to_owned(),
    )
}

fn ext4_recovery_required() -> (failure: ServiceError)
    ensures
        failure@ == recovery_error(),
{
    error::io_error(
        IoKind::InvalidData,
        "ext4 journal recovery is required; modification authorization is needed to replay it",
    )
}

/// Whether a filesystem may be written: its superblock is one of ext4 that
/// records no error.
pub open spec fn writability(superblock: Seq<u8>) -> Result<(), ErrorView> {
    if !is_ext4(superblock) {
        Err(not_ext4_error())
    } else if health_of(superblock).has_errors {
        Err(has_errors_error())
    } else {
        Ok(())
    }
}

/// Makes sure that a filesystem may be written. Recorded errors block every
/// writable mount.
pub fn validate_ext4_writable(superblock: &[u8]) -> (result: Result<(), ServiceError>)
    requires
        superblock@.len() == EXT4_SUPER_LEN,
    ensures
        match result {
            Ok(_) => writability(superblock@) == Ok::<(), ErrorView>(()),
            Err(e) => writability(superblock@) == Err::<(), ErrorView>(e@),
        },
{
    match ext4_superblock_health(superblock) {
        Err(e) => Err(e),
        Ok(health) => if health.has_errors {
            Err(ext4_filesystem_has_errors())
        } else {
            Ok(())
        },
    }
}

/// Whether the journal of a filesystem must be replayed.
pub open spec fn recovery(superblock: Seq<u8>) -> Result<bool, ErrorView> {
    match writability(superblock) {
        Ok(_) => Ok(health_of(superblock).needs_recovery),
        Err(e) => Err(e),
    }
}

/// Tells whether the journal of a filesystem must be replayed before it can
/// be read.
pub fn ext4_needs_recovery(superblock: &[u8]) -> (result: Result<bool, ServiceError>)
    requires
        superblock@.len() == EXT4_SUPER_LEN,
    ensures
        match result {
            Ok(needed) => recovery(superblock@) == Ok::<bool, ErrorView>(needed),
            Err(e) => recovery(superblock@) == Err::<bool, ErrorView>(e@),
        },
{
    match ext4_superblock_health(superblock) {
        Err(e) => Err(e),
        Ok(health) => if health.has_errors {
            Err(ext4_filesystem_has_errors())
        } else {
            Ok(health.needs_recovery)
        },
    }
}

/// Makes sure that a filesystem can be read without replaying its journal.
pub fn validate_ext4_clean(superblock: &[u8]) -> (result: Result<(), ServiceError>)
    requires
        superblock@.len() == EXT4_SUPER_LEN,
    ensures
        match result {
            Ok(_) => recovery(superblock@) == Ok::<bool, ErrorView>(false),
            Err(e) => match recovery(superblock@) {
                Ok(needed) => needed && e@ == recovery_error(),
                Err(failure) => e@ == failure,
            },
        },
{
    match ext4_needs_recovery(superblock) {
        Err(e) => Err(e),
        Ok(needed) => if needed {
            Err(ext4_recovery_required())
        } else {
            Ok(())
        },
    }
}

/// Whether it is known only from the superblock if the journal of a volume
/// must be replayed: an ext4 volume that is not mounted.
pub open spec fn is_offline_ext4(volume: VolumeView) -> bool {
    volume.mount_state == MountState::Unmounted && volume.filesystem == "ext4"@
}

/// Tells whether the superblock of a volume must be read to know if its
/// journal must be replayed.
pub fn recovery_is_open(volume: &Volume) -> (yes: bool)
    ensures
        yes == is_offline_ext4(volume@),
{
    volume.mount_state == MountState::Unmounted && text::same_text(
        volume.filesystem.as_str(),
        "ext4",
    )
}

/// How a volume is mounted for an analysis: for writing only to replay its
/// journal, and that only where it is allowed.
pub fn analysis_is_writable(needs_recovery: bool, allow_journal_recovery: bool) -> (result: Result<
    bool,
    ServiceError,
>)
    ensures
        (result is Err) == (needs_recovery && !allow_journal_recovery),
        result matches Ok(writable) ==> writable == needs_recovery,
        result matches Err(e) ==> e@ == recovery_error(),
{
    if needs_recovery && !allow_journal_recovery {
        return Err(ext4_recovery_required());
    }
    Ok(needs_recovery)
}

// ---------------------------------------------------------------------
// Mounting for a job
// ---------------------------------------------------------------------

/// What is done to make a volume ready for a job, in order.
#[derive(Clone, Copy, Debug, PartialEq, Eq, Structural)]
pub enum MountStep {
    /// The file of the device must still name it.
    CheckDevice,
    /// The superblock must record no error.
    CheckWritable,
    /// The volume is mounted for reading only: the job ends.
    RefuseReadOnly,
    /// The journal must need no replay.
    CheckClean,
    /// The job gets a mount namespace of its own.
    EnterNamespace,
    /// Mounts of the job are not passed on.
    MakePrivate,
    /// A directory is made for the mount.
    CreateDirectory,
    /// The volume is mounted there.
    Mount,
    /// The number of the mount is read.
    Identify,
}

/// The steps that make a volume ready.
pub open spec fn mount_steps_for(volume: VolumeView, writable: bool) -> Seq<MountStep> {
    let ext4 = volume.filesystem == "ext4"@;
    let checks = if writable && ext4 {
        seq![MountStep::CheckDevice, MountStep::CheckWritable]
    } else {
        Seq::empty()
    };
    if volume.mount_state != MountState::Unmounted {
        if writable && volume.mount_state != MountState::MountedReadWrite {
            checks.push(MountStep::RefuseReadOnly)
        } else {
            checks
        }
    } else {
        let device = checks.push(MountStep::CheckDevice);
        let clean = if !writable && ext4 {
            device.push(MountStep::CheckClean)
        } else {
            device
        };
        clean + seq![
            MountStep::EnterNamespace,
            MountStep::MakePrivate,
            MountStep::CreateDirectory,
            MountStep::Mount,
            MountStep::Identify,
        ]
    }
}

/// Lists the steps that make a volume ready for a job. A mounted volume is
/// used as it is.
pub fn mount_for_job(volume: &Volume, writable: bool) -> (steps: Vec<MountStep>)
    ensures
        steps@ == mount_steps_for(volume@, writable),
{
    let ext4: bool = text::same_text(volume.filesystem.as_str(), "ext4");
    let mut steps: Vec<MountStep> = Vec::new();
    if writable && ext4 {
        steps.push(MountStep::CheckDevice);
        steps.push(MountStep::CheckWritable);
    }
    if volume.mount_state != MountState::Unmounted {
        if writable && volume.mount_state != MountState::MountedReadWrite {
            steps.push(MountStep::RefuseReadOnly);
        }
    } else {
        steps.push(MountStep::CheckDevice);
        if !writable && ext4 {
            steps.push(MountStep::CheckClean);
        }
        steps.push(MountStep::EnterNamespace);
        steps.push(MountStep::MakePrivate);
        steps.push(MountStep::CreateDirectory);
        steps.push(MountStep::Mount);
        steps.push(MountStep::Identify);
    }
    assert(steps@ =~= mount_steps_for(volume@, writable));
    steps
}

/// An ext4 volume is never written, nor mounted for writing, before its
/// superblock was found free of errors; nor is one that is not mounted read
/// before its journal was found clean.
pub proof fn lemma_superblock_is_checked_first(volume: VolumeView, writable: bool)
    requires
        volume.filesystem == "ext4"@,
        writable || volume.mount_state == MountState::Unmounted,
    ensures
        ({
            let steps = mount_steps_for(volume, writable);
            let check = if writable {
                MountStep::CheckWritable
            } else {
                MountStep::CheckClean
            };
            &&& steps.len() >= 2
            &&& steps[0] == MountStep::CheckDevice
            &&& steps[1] == check
            &&& forall|i: int|
                0 <= i < steps.len() && #[trigger] steps[i] == MountStep::Mount ==> i > 1
        }),
{
}

/// What a volume that may not be written is refused with.
pub fn read_only_error() -> (failure: ServiceError)
    ensures
        failure@ == error::io_failure(
            IoKind::ReadOnlyFilesystem,
            "the selected filesystem is mounted read-only"@,
        ),
{
    error::io_error(
        IoKind::ReadOnlyFilesystem,
        "the selected filesystem is mounted read-only",
    )
}

/// The flag of a mount that is only read.
pub const MS_RDONLY: u64 = 1;

/// The flag of a mount whose files get no rights from their owners.
pub const MS_NOSUID: u64 = 2;

/// The flag of a mount without devices.
pub const MS_NODEV: u64 = 4;

/// The flag of a mount whose files are not run.
pub const MS_NOEXEC: u64 = 8;

/// The flags of a mount for a job.
pub fn mount_flags(writable: bool) -> (flags: u64)
    ensures
        flags == MS_NODEV + MS_NOSUID + MS_NOEXEC + (if writable {
            0int
        } else {
            MS_RDONLY as int
        }),
{
    if writable {
        MS_NODEV + MS_NOSUID + MS_NOEXEC
    } else {
        MS_NODEV + MS_NOSUID + MS_NOEXEC + MS_RDONLY
    }
}

/// The option text of a mount for a job: an ext4 volume that is only read
/// keeps its journal untouched.
pub fn mount_options(volume: &Volume, writable: bool) -> (options: Option<&'static str>)
    ensures
        match options {
            Some(options) => !writable && volume@.filesystem == "ext4"@ && options@ == "noload"@,
            None => writable || volume@.filesystem != "ext4"@,
        },
{
    if !writable && text::same_text(volume.filesystem.as_str(), "ext4") {
        Some("noload")
    } else {
        None
    }
}

/// The name of the directory of a mount for a job.
pub open spec fn private_mount_name_of(process: u32, volume: u64, serial: u64) -> Seq<char> {
    "defragger-"@ + text::decimal(process as nat) + "-"@ + text::decimal(volume as nat) + "-"@
        + text::decimal(serial as nat)
}

/// Names the directory of a mount for a job.
pub fn private_mount_name(process: u32, volume: &Volume, serial: u64) -> (name: String)
    ensures
        name@ == private_mount_name_of(process, volume@.id.0, serial),
{
    let mut name: String = "defragger-".to_owned();
    text::push_decimal(&mut name, process as u64);
    text::push_text(&mut name, "-");
    text::push_decimal(&mut name, volume.id.0);
    text::push_text(&mut name, "-");
    text::push_decimal(&mut name, serial);
    name
}

/// What is tried in a step, in words.
pub open spec fn step_text(
    step: MountStep,
    volume: VolumeView,
    writable: bool,
    directory: Seq<u8>,
) -> Seq<char> {
    match step {
        MountStep::EnterNamespace => "could not create the job's private mount namespace"@,
        MountStep::MakePrivate => "could not make mounts private inside the job namespace"@,
        MountStep::CreateDirectory => "could not create private mount point "@
            + path::lossy_text(directory),
        MountStep::Mount => "could not mount "@ + volume.source + " as "@ + volume.filesystem + " "@
            + (if writable {
            "read-write"@
        } else {
            "read-only"@
        }) + " at "@ + path::lossy_text(directory),
        _ => "could not identify private mount "@ + path::lossy_text(directory),
    }
}

/// Reports a step of the system that failed.
pub fn step_error(
    step: MountStep,
    volume: &Volume,
    writable: bool,
    directory: &FsPath,
    error: &OsError,
) -> (failure: ServiceError)
    requires
        step == MountStep::EnterNamespace || step == MountStep::MakePrivate || step
            == MountStep::CreateDirectory || step == MountStep::Mount || step
            == MountStep::Identify,
    ensures
        failure@ == error::operation_failure(
            step_text(step, volume@, writable, directory@),
            error@,
        ),
{
    let mut operation: String = String::new();
    match step {
        MountStep::EnterNamespace => {
            operation = "could not create the job's private mount namespace".to_owned();
        },
        MountStep::MakePrivate => {
            operation = "could not make mounts private inside the job namespace".to_owned();
        },
        MountStep::CreateDirectory => {
            operation = "could not create private mount point ".to_owned();
            text::push_text(&mut operation, directory.display().as_str());
        },
        MountStep::Mount => {
            operation = "could not mount ".to_owned();
            text::push_text(&mut operation, volume.source.as_str());
            text::push_text(&mut operation, " as ");
            text::push_text(&mut operation, volume.filesystem.as_str());
            text::push_text(&mut operation, " ");
            if writable {
                text::push_text(&mut operation, "read-write");
            } else {
                text::push_text(&mut operation, "read-only");
            }
            text::push_text(&mut operation, " at ");
            text::push_text(&mut operation, directory.display().as_str());
        },
        _ => {
            operation = "could not identify private mount ".to_owned();
            text::push_text(&mut operation, directory.display().as_str());
        },
    }
    error::operation_error(operation.as_str(), error)
}

/// A volume as it is while it is mounted for a job.
pub open spec fn mounted_for_job(
    volume: VolumeView,
    directory: Seq<u8>,
    mount_id: u64,
    writable: bool,
    size: Option<(u64, u64)>,
) -> VolumeView {
    let mounted = VolumeView {
        mount_point: Some(directory),
        mount_id: Some(mount_id),
        parent_mount_id: None,
        read_only: !writable,
        ..volume
    };
    match size {
        Some((capacity, free)) => VolumeView {
            capacity_bytes: capacity,
            free_bytes: Some(free),
            used_bytes: Some(arith::max_int(capacity - free, 0) as u64),
            ..mounted
        },
        None => mounted,
    }
}

/// Describes a volume that was mounted for a job.
pub fn mounted_volume(
    volume: &Volume,
    directory: FsPath,
    mount_id: u64,
    writable: bool,
    size: Option<(u64, u64)>,
) -> (mounted: Volume)
    ensures
        mounted@ == mounted_for_job(volume@, directory@, mount_id, writable, size),
{
    let mut mounted: Volume = volume.clone();
    mounted.mount_point = Some(directory);
    mounted.mount_id = Some(mount_id);
    mounted.parent_mount_id = None;
    mounted.read_only = !writable;
    if let Some((capacity, free)) = size {
        mounted.capacity_bytes = capacity;
        mounted.free_bytes = Some(free);
        mounted.used_bytes = Some(capacity.saturating_sub(free));
    }
    mounted
}

/// The size of a filesystem and what is free of it, from its numbers of
/// blocks.
pub fn filesystem_size(blocks: u64, available: u64, fragment_size: u64) -> (size: (u64, u64))
    ensures
        size.0 == arith::sat64(blocks * fragment_size),
        size.1 == arith::sat64(available * fragment_size),
{
    (
        arith::saturating_mul(blocks, fragment_size),
        arith::saturating_mul(available, fragment_size),
    )
}

// ---------------------------------------------------------------------
// Unmounting
// ---------------------------------------------------------------------

/// The directory to unmount, where there is one, or why there cannot be.
pub open spec fn unmount_target_of(volume: VolumeView) -> Result<Option<Seq<u8>>, ErrorView> {
    if volume.mount_state == MountState::Unmounted {
        Ok(None)
    } else {
        match volume.mount_point {
            None => Err(ErrorView::UnmountUnavailable("the volume has no mount point"@)),
            Some(directory) => if directory.contains(0u8) {
                Err(ErrorView::UnmountUnavailable("the mount point contains a NUL byte"@))
            } else {
                Ok(Some(directory))
            },
        }
    }
}

fn holds_nul(path: &FsPath) -> (yes: bool)
    ensures
        yes == path@.contains(0u8),
{
    let mut i: usize = 0;
    while i < path.bytes.len()
        invariant
            i <= path.bytes@.len(),
            forall|k: int| 0 <= k < i ==> path@[k] != 0,
        decreases path.bytes@.len() - i,
    {
        if path.bytes[i] == 0 {
            assert(path@[i as int] == 0);
            return true;
        }
        i = i + 1;
    }
    false
}

/// Says what must be unmounted to take a volume offline.
pub fn unmount(volume: &Volume) -> (target: Result<Option<FsPath>, ServiceError>)
    ensures
        match target {
            Ok(directory) => unmount_target_of(volume@) == Ok::<Option<Seq<u8>>, ErrorView>(
                views::opt(directory),
            ),
            Err(e) => unmount_target_of(volume@) == Err::<Option<Seq<u8>>, ErrorView>(e@),
        },
{
    if volume.mount_state == MountState::Unmounted {
        return Ok(None);
    }
    match &volume.mount_point {
        None => Err(ServiceError::UnmountUnavailable("the volume has no mount point".to_owned())),
        Some(directory) => if holds_nul(directory) {
            Err(ServiceError::UnmountUnavailable("the mount point contains a NUL byte".to_owned()))
        } else {
            Ok(Some(directory.clone()))
        },
    }
}

/// Reports an unmount that failed.
pub fn unmount_error(directory: &FsPath, error: &OsError) -> (failure: ServiceError)
    ensures
        failure@ == error::operation_failure(
            "could not unmount "@ + path::lossy_text(directory@),
            error@,
        ),
{
    let mut operation: String = "could not unmount ".to_owned();
    text::push_text(&mut operation, directory.display().as_str());
    error::operation_error(operation.as_str(), error)
}

} // verus!
