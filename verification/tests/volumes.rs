use defragger::backend::{default_backends, find_backend, FilesystemBackend};
use defragger::domain::{
    AnalysisCompleteness, AnalysisId, AnalysisReport, DefragPolicy, FragmentationMetrics, JobId,
    MountState, OptimizationMode, PlanId, ScanCoverage, ServiceEvent, SupportStatus, Volume,
    VolumeId,
};
use defragger::error::{IoKind, OsError, ServiceError};
use defragger::jobs::{Control, Gate, JobControl};
use defragger::mounting::{
    analysis_is_writable, ext4_needs_recovery, ext4_superblock_health, filesystem_size,
    mount_flags, mount_for_job, mount_options, mounted_volume, private_mount_name, step_error,
    unmount, validate_block_device, validate_ext4_clean, validate_ext4_writable, DeviceFacts,
    Ext4Health, MountStep, MS_RDONLY,
};
use defragger::mounts::{
    device_volume_id, discover, parse_device_number, parse_line, read_device, read_mounts,
    unescape, Device, MountSize, Surroundings,
};
use defragger::path::FsPath;
use defragger::plan::{Analysis, Ext4Analysis, FatAnalysis, PlanExecution};
use defragger::service::{
    finish_defrag, is_terminal, job_failure, needs_final_check, preparation_failure, DeviceReading,
    InProcessClient,
};

const RECORD: &str = "S:disk/by-id/x\nE:ID_FS_USAGE=filesystem\nE:ID_FS_TYPE=ext4\nE:ID_FS_LABEL=Data\nE:ID_FS_UUID=1-2-3\n";

const TABLE: &str = "22 1 8:1 / / rw,relatime shared:1 - ext4 /dev/sda1 rw\n\
    30 22 8:17 / /media/stick rw - vfat /dev/sdb1 rw\n\
    31 22 0:22 / /proc rw - proc proc rw\n\
    32 22 8:33 / /old ro - ext4 /dev/sdc1 rw\n";

fn device(major: u32, minor: u32, name: &str, record: &str, sectors: &str) -> Device {
    Device {
        major,
        minor,
        info: read_device(name, &Some(record.to_owned()), &Some(sectors.to_owned())).unwrap(),
    }
}

fn surroundings() -> Surroundings {
    Surroundings {
        mount_table: Ok(TABLE.to_owned()),
        devices: vec![device(8, 49, "sdd1", RECORD, "2048\n")],
        sizes: vec![MountSize { mount_id: 22, capacity: 1_000, free: 400 }],
    }
}

fn id(major: u32, minor: u32) -> VolumeId {
    device_volume_id(major, minor)
}

fn find(volumes: &[Volume], id: VolumeId) -> &Volume {
    volumes.iter().find(|volume| volume.id == id).unwrap()
}

fn superblock(recover: bool, errors: bool) -> Vec<u8> {
    let mut bytes = vec![0u8; 1024];
    bytes[0x38..0x3a].copy_from_slice(&0xef53_u16.to_le_bytes());
    if recover {
        bytes[0x60..0x64].copy_from_slice(&4u32.to_le_bytes());
    }
    if errors {
        bytes[0x3a..0x3c].copy_from_slice(&2u16.to_le_bytes());
    }
    bytes
}

fn reading(volume: &Volume, bytes: Vec<u8>) -> DeviceReading {
    let device = (u64::from(volume.device_major) << 8) | u64::from(volume.device_minor);
    DeviceReading {
        facts: Ok(DeviceFacts { is_block_device: true, device }),
        superblock: Ok(bytes),
    }
}

fn report(volume: Volume) -> AnalysisReport {
    AnalysisReport {
        volume,
        completeness: AnalysisCompleteness::Complete,
        coverage: ScanCoverage::default(),
        fragmentation: FragmentationMetrics::default(),
        files: vec![],
        map: vec![],
        warnings: vec![],
    }
}

#[test]
fn parses_mountinfo_and_decodes_paths() {
    let line = "42 35 8:2 / /media/My\\040Disk rw,nosuid shared:7 - ext4 /dev/sda2 rw";
    let info = parse_line(line).unwrap();
    assert_eq!(info.mount_id, 42);
    assert!(info.mount_point.same(&FsPath::from_text("/media/My Disk")));
    assert_eq!(info.filesystem, "ext4");
    assert_eq!(info.source, "/dev/sda2");
    assert!(info.root.same(&FsPath::from_text("/")));
}

#[test]
fn volume_ids_are_device_based() {
    assert_eq!(device_volume_id(8, 2), VolumeId((8_u64 << 32) | 2));
}

#[test]
fn detects_when_an_ext4_superblock_needs_journal_recovery() {
    let mut superblock = [0_u8; 1024];
    superblock[0x38..0x3a].copy_from_slice(&0xef53_u16.to_le_bytes());
    assert_eq!(
        ext4_superblock_health(&superblock).unwrap(),
        Ext4Health { needs_recovery: false, has_errors: false }
    );

    superblock[0x60..0x64].copy_from_slice(&0x0004_u32.to_le_bytes());
    superblock[0x3a..0x3c].copy_from_slice(&0x0002_u16.to_le_bytes());
    assert_eq!(
        ext4_superblock_health(&superblock).unwrap(),
        Ext4Health { needs_recovery: true, has_errors: true }
    );
}

#[test]
fn escapes_of_the_mount_table_are_undone() {
    assert_eq!(unescape("a\\040b\\011c\\012d\\134e"), "a b\tc\nd\\e");
    assert_eq!(unescape("plain"), "plain");
    assert_eq!(unescape("short\\04"), "short\\04");
}

#[test]
fn incomplete_mount_lines_are_passed_over() {
    assert!(parse_line("").is_none());
    assert!(parse_line("42 35 8:2 / /x rw").is_none());
    assert!(parse_line("42 35 8 / /x rw - ext4 /dev/x rw").is_none());
    assert_eq!(parse_device_number("259:6"), Some((259, 6)));
    assert_eq!(parse_device_number("259"), None);
    assert_eq!(read_mounts(TABLE).len(), 3);
}

#[test]
fn devices_are_described_by_their_records() {
    let info = device(8, 49, "sdd1", RECORD, "2048\n").info;
    assert_eq!(info.source, "/dev/sdd1");
    assert_eq!(info.filesystem, "ext4");
    assert_eq!(info.capacity, 1_048_576);
    assert_eq!(info.label.as_deref(), Some("Data"));
    assert_eq!(info.uuid.as_deref(), Some("1-2-3"));
    let crypto = RECORD.replace("=filesystem", "=crypto");
    assert!(read_device("sdd1", &Some(crypto), &None).is_none());
    assert!(read_device("sdd1", &None, &None).is_none());
    let sizeless = read_device("sdd1", &Some(RECORD.to_owned()), &None).unwrap();
    assert_eq!(sizeless.capacity, 0);
}

#[test]
fn mounted_and_unmounted_volumes_are_listed_once() {
    let volumes = discover(&surroundings(), &default_backends()).unwrap();
    let sources: Vec<&str> = volumes.iter().map(|volume| volume.source.as_str()).collect();
    assert_eq!(sources, vec!["/dev/sda1", "/dev/sdb1", "/dev/sdc1", "/dev/sdd1"]);
    let root = find(&volumes, id(8, 1));
    assert_eq!(root.mount_state, MountState::MountedReadWrite);
    assert_eq!(root.capacity_bytes, 1_000);
    assert_eq!(root.free_bytes, Some(400));
    assert_eq!(root.used_bytes, Some(600));
    assert!(matches!(root.support, SupportStatus::Defragmentable));
    assert_eq!(find(&volumes, id(8, 33)).mount_state, MountState::MountedReadOnly);
    let offline = find(&volumes, id(8, 49));
    assert_eq!(offline.mount_state, MountState::Unmounted);
    assert_eq!(offline.capacity_bytes, 1_048_576);
    assert_eq!(offline.label.as_deref(), Some("Data"));
}

#[test]
fn a_missing_mount_table_is_an_error() {
    let around = Surroundings {
        mount_table: Err(OsError::new(IoKind::NotFound, "no such file")),
        devices: vec![],
        sizes: vec![],
    };
    assert!(matches!(discover(&around, &default_backends()), Err(ServiceError::Io(_))));
}

#[test]
fn families_are_found_by_the_names_of_filesystems() {
    let volumes = discover(&surroundings(), &default_backends()).unwrap();
    let backends = default_backends();
    assert_eq!(backends.len(), 2);
    assert_eq!(find_backend(&backends, find(&volumes, id(8, 1))).unwrap().id(), "ext4");
    assert_eq!(find_backend(&backends, find(&volumes, id(8, 17))).unwrap().id(), "fat");
    let mut odd = find(&volumes, id(8, 1)).clone();
    odd.filesystem = "btrfs".to_owned();
    assert!(find_backend(&backends, &odd).is_none());
}

#[test]
fn the_numbers_of_a_device_are_held_against_its_volume() {
    let volumes = discover(&surroundings(), &default_backends()).unwrap();
    let volume = find(&volumes, id(8, 49));
    let right = DeviceFacts { is_block_device: true, device: (8 << 8) | 49 };
    assert!(validate_block_device(volume, right).is_ok());
    let other = DeviceFacts { is_block_device: true, device: (8 << 8) | 50 };
    assert_eq!(
        validate_block_device(volume, other).unwrap_err().message(),
        "the selected block device no longer matches the discovered volume"
    );
    let file = DeviceFacts { is_block_device: false, device: (8 << 8) | 49 };
    assert!(validate_block_device(volume, file).is_err());
    let mut large = volume.clone();
    large.device_major = 0x1234;
    large.device_minor = 0x5_6789;
    let device = ((0x1234u64 & 0xfff) << 8)
        | ((0x1234u64 & 0xffff_f000) << 32)
        | (0x5_6789u64 & 0xff)
        | ((0x5_6789u64 & 0xffff_ff00) << 12);
    assert!(validate_block_device(&large, DeviceFacts { is_block_device: true, device }).is_ok());
}

#[test]
fn superblocks_decide_what_may_be_mounted() {
    assert!(ext4_superblock_health(&[0u8; 1024]).is_err());
    assert!(validate_ext4_writable(&superblock(true, false)).is_ok());
    assert!(validate_ext4_writable(&superblock(false, true)).is_err());
    assert!(!ext4_needs_recovery(&superblock(false, false)).unwrap());
    assert!(ext4_needs_recovery(&superblock(true, false)).unwrap());
    assert!(ext4_needs_recovery(&superblock(true, true)).is_err());
    assert!(validate_ext4_clean(&superblock(false, false)).is_ok());
    assert!(validate_ext4_clean(&superblock(true, false)).is_err());
    assert!(!analysis_is_writable(false, false).unwrap());
    assert!(analysis_is_writable(true, true).unwrap());
    assert!(analysis_is_writable(true, false).is_err());
}

#[test]
fn offline_volumes_are_mounted_privately() {
    let volumes = discover(&surroundings(), &default_backends()).unwrap();
    let offline = find(&volumes, id(8, 49));
    let steps = mount_for_job(offline, false);
    assert_eq!(steps[0], MountStep::CheckDevice);
    assert!(steps.contains(&MountStep::CheckClean));
    assert!(steps.contains(&MountStep::EnterNamespace));
    assert_eq!(steps.last(), Some(&MountStep::Identify));
    assert!(mount_for_job(offline, true).contains(&MountStep::CheckWritable));
    assert!(mount_for_job(find(&volumes, id(8, 1)), false).is_empty());
    assert!(mount_for_job(find(&volumes, id(8, 33)), true).contains(&MountStep::RefuseReadOnly));
    assert_eq!(mount_flags(false) & MS_RDONLY, MS_RDONLY);
    assert_eq!(mount_flags(true) & MS_RDONLY, 0);
    assert_eq!(mount_options(offline, false), Some("noload"));
    assert_eq!(mount_options(offline, true), None);
    assert_eq!(
        private_mount_name(12, offline, 3),
        format!("defragger-12-{}-3", id(8, 49).0)
    );
    let directory = FsPath::from_text("/run/m");
    let failure = step_error(
        MountStep::Mount,
        offline,
        false,
        &directory,
        &OsError::new(IoKind::PermissionDenied, "denied"),
    );
    assert!(failure.message().contains("could not mount /dev/sdd1 as ext4 read-only at /run/m"));
    let mounted = mounted_volume(offline, directory, 77, false, Some((5_000, 2_000)));
    assert_eq!(mounted.mount_id, Some(77));
    assert!(mounted.read_only);
    assert_eq!(filesystem_size(10, 4, 512), (5_120, 2_048));
}

#[test]
fn only_classic_fat_is_unmounted_for_offline_access() {
    let client = InProcessClient::new();
    let around = surroundings();
    let target = client.unmount_volume(id(8, 17), &around).unwrap().unwrap();
    assert_eq!(target.display(), "/media/stick");
    match client.unmount_volume(id(8, 1), &around) {
        Err(ServiceError::UnmountUnavailable(message)) => {
            assert_eq!(message, "ext4 does not require offline FAT access")
        }
        _ => panic!("ext4 is not unmounted"),
    }
    assert!(matches!(
        client.unmount_volume(VolumeId(5), &around),
        Err(ServiceError::VolumeNotFound(VolumeId(5)))
    ));
    let volumes = client.list_volumes(&around).unwrap();
    assert!(unmount(find(&volumes, id(8, 49))).unwrap().is_none());
}

#[test]
fn jobs_start_with_an_announcement_and_have_numbers_of_their_own() {
    let mut client = InProcessClient::new();
    let around = surroundings();
    let first = client.start_analysis(id(8, 1), &around).unwrap();
    let second = client.start_analysis_allowing_recovery(id(8, 49), &around).unwrap();
    assert_ne!(first.handle.id(), second.handle.id());
    assert!(!first.allow_journal_recovery);
    assert!(second.allow_journal_recovery);
    assert!(matches!(
        first.handle.events().first(),
        Some(ServiceEvent::AnalysisStarted { .. })
    ));
    assert!(matches!(
        client.start_analysis(VolumeId(3), &around),
        Err(ServiceError::VolumeNotFound(VolumeId(3)))
    ));
    let mut odd = surroundings();
    odd.devices.push(device(8, 65, "sde1", &RECORD.replace("ext4", "btrfs"), "8"));
    assert!(matches!(
        client.start_analysis(id(8, 65), &odd),
        Err(ServiceError::UnsupportedFilesystem(_))
    ));
}

#[test]
fn handles_pause_resume_and_cancel() {
    let mut client = InProcessClient::new();
    let mut handle = client.start_analysis(id(8, 1), &surroundings()).unwrap().handle;
    assert_eq!(handle.control().checkpoint().unwrap(), Gate::Proceed);
    handle.pause();
    assert_eq!(handle.control().checkpoint().unwrap(), Gate::Wait);
    handle.resume();
    assert_eq!(handle.control().checkpoint().unwrap(), Gate::Proceed);
    let job = handle.id();
    handle.deliver(ServiceEvent::JobCancelled { job_id: job });
    assert_eq!(handle.events().len(), 2);
    assert!(matches!(handle.receive(), Some(ServiceEvent::AnalysisStarted { .. })));
    assert!(matches!(handle.receive(), Some(ServiceEvent::JobCancelled { .. })));
    assert!(handle.receive().is_none());
    handle.pause();
    handle.cancel();
    assert!(matches!(handle.control().checkpoint(), Err(ServiceError::Cancelled)));
    assert!(handle.control().is_cancelled());
    let mut control = Control::default();
    control.cancel();
    assert!(control.is_cancelled());
}

#[test]
fn recovery_is_asked_for_where_the_journal_needs_it() {
    let client = InProcessClient::new();
    let around = surroundings();
    let volumes = client.list_volumes(&around).unwrap();
    let volume = find(&volumes, id(8, 49));
    let need = |bytes| {
        client.analysis_requires_recovery(id(8, 49), &around, &reading(volume, bytes))
    };
    assert!(!need(superblock(false, false)).unwrap());
    assert!(need(superblock(true, false)).unwrap());
    assert!(need(superblock(true, true)).is_err());
    let mounted = find(&volumes, id(8, 1));
    assert!(!client
        .analysis_requires_recovery(id(8, 1), &around, &reading(mounted, superblock(true, false)))
        .unwrap());
}

#[test]
fn analyses_are_kept_until_they_are_discarded() {
    let mut client = InProcessClient::new();
    let around = surroundings();
    let started = client.start_analysis(id(8, 1), &around).unwrap();
    let analysis = Analysis::Ext4(Ext4Analysis { report: report(started.volume) });
    let event = client.finish_analysis(started.handle.id(), Ok(analysis));
    let analysis_id = match event {
        ServiceEvent::AnalysisFinished { analysis_id, .. } => analysis_id,
        _ => panic!("the analysis is finished"),
    };
    let (plan_id, summary) = client.build_plan(analysis_id, &DefragPolicy::default()).unwrap();
    assert!(summary.requirements.available_in_this_build);
    let compact = DefragPolicy { mode: OptimizationMode::Compact, ..DefragPolicy::default() };
    assert!(matches!(
        client.build_plan(analysis_id, &compact),
        Err(ServiceError::UnsupportedOptimizationMode { .. })
    ));
    assert!(client.start_defrag(plan_id).is_ok());
    assert!(matches!(client.start_defrag(plan_id), Err(ServiceError::PlanNotFound(_))));
    client.discard_analysis(analysis_id).unwrap();
    assert!(matches!(
        client.build_plan(analysis_id, &DefragPolicy::default()),
        Err(ServiceError::AnalysisNotFound(_))
    ));
    assert!(matches!(client.start_defrag(PlanId(99)), Err(ServiceError::PlanNotFound(PlanId(99)))));
    let _ = client.discard_analysis(AnalysisId(77));
}

#[test]
fn plans_are_numbered_in_order() {
    let mut client = InProcessClient::new();
    let started = client.start_analysis(id(8, 1), &surroundings()).unwrap();
    let analysis = Analysis::Ext4(Ext4Analysis { report: report(started.volume) });
    client.finish_analysis(started.handle.id(), Ok(analysis));
    let policy = DefragPolicy::default();
    let compact = DefragPolicy { mode: OptimizationMode::Compact, ..DefragPolicy::default() };
    assert_eq!(client.build_plan(AnalysisId(1), &policy).unwrap().0, PlanId(1));
    assert!(client.build_plan(AnalysisId(2), &policy).is_err());
    assert!(client.build_plan(AnalysisId(1), &compact).is_err());
    assert_eq!(client.build_plan(AnalysisId(1), &policy).unwrap().0, PlanId(2));
    assert!(matches!(client.start_defrag(PlanId(3)), Err(ServiceError::PlanNotFound(_))));
}

#[test]
fn plans_for_fat_are_previews() {
    let mut client = InProcessClient::new();
    let started = client.start_analysis(id(8, 17), &surroundings()).unwrap();
    let analysis = Analysis::Fat(FatAnalysis { report: report(started.volume) });
    let analysis_id = match client.finish_analysis(started.handle.id(), Ok(analysis)) {
        ServiceEvent::AnalysisFinished { analysis_id, .. } => analysis_id,
        _ => panic!("the analysis is finished"),
    };
    let (plan_id, summary) = client.build_plan(analysis_id, &DefragPolicy::default()).unwrap();
    assert!(!summary.requirements.available_in_this_build);
    assert!(matches!(client.start_defrag(plan_id), Err(ServiceError::ExecutionUnavailable)));
}

#[test]
fn jobs_end_with_one_last_event() {
    let mut client = InProcessClient::new();
    let job = JobId(4);
    let cancelled = client.finish_analysis(job, Err(ServiceError::Cancelled));
    assert!(matches!(cancelled, ServiceEvent::JobCancelled { job_id: JobId(4) }));
    assert!(is_terminal(&cancelled));
    let failed = job_failure(job, &ServiceError::ExecutionUnavailable);
    assert!(matches!(failed, ServiceEvent::Failed { job_id: Some(JobId(4)), .. }));
    assert!(is_terminal(&preparation_failure(job, &ServiceError::Poisoned)));
    let volumes = client.list_volumes(&surroundings()).unwrap();
    let execution = PlanExecution { report: report(volumes[0].clone()), stopped: true };
    assert!(matches!(finish_defrag(job, Ok(execution)), ServiceEvent::DefragStopped { .. }));
    let execution = PlanExecution { report: report(volumes[0].clone()), stopped: false };
    assert!(matches!(finish_defrag(job, Ok(execution)), ServiceEvent::DefragFinished { .. }));
    assert!(is_terminal(&finish_defrag(job, Err(ServiceError::Cancelled))));
    assert!(!is_terminal(&ServiceEvent::AnalysisStarted { job_id: job }));
    let _ = needs_final_check(&volumes[0], &volumes[0]);
}

#[test]
fn every_failure_has_its_text() {
    for (failure, text) in [
        (ServiceError::VolumeNotFound(VolumeId(7)), "7"),
        (ServiceError::UnsupportedFilesystem("btrfs".to_owned()), "btrfs"),
        (ServiceError::AnalysisNotFound(AnalysisId(8)), "8"),
        (ServiceError::PlanNotFound(PlanId(9)), "9"),
        (ServiceError::UnmountUnavailable("why".to_owned()), "why"),
        (ServiceError::UnsafeFilesystem("broken".to_owned()), "broken"),
        (ServiceError::Io(OsError::new(IoKind::Other, "device lost")), "device lost"),
    ] {
        assert!(failure.message().contains(text), "{}", failure.message());
    }
}
