use defragger::cli::{
    self, development_helper_socket, display_path, end_label, format_basis_points, list,
    loop_backing_file, loop_device, occupancy, parse_volume_id, path_matches, plan_is_executable,
    ranges, read_command, resolve_volume_id, show_plan, show_report, show_volume, take_flag,
    volume_paths, Command, Located, Selectable, Turn,
};
use defragger::domain::{
    AnalysisCompleteness, AnalysisId, AnalysisReport, DefragPhase, DefragProgress,
    ExecutionRequirements, FileReport, FragmentationMetrics, JobId, JobProgress, MountState,
    AnalysisPhase, PhysicalRange, PlanId, PlanSummary, RequiredMountState, ScanCoverage,
    ServiceEvent, SupportStatus, Volume, VolumeId,
};
use defragger::helper::{
    action, authorized, wait_limit, AuthorizationMode, Helper, HelperError, Leave, ABANDONED_AFTER,
    EXPIRED_AFTER,
};
use defragger::path::FsPath;
use defragger::remote::{
    await_helper, development_socket_path, launch_outcome, launch_words, runtime_directory,
    socket_error, timeout_millis, watch_job, Arrival, DirectoryFacts, LaunchStep,
    PrivilegedClientError, SocketError, BUS_NAME, INTERFACE, OBJECT_PATH,
};

fn words(list: &[&str]) -> Vec<String> {
    list.iter().map(|word| (*word).to_owned()).collect()
}

fn path(text: &str) -> FsPath {
    FsPath::from_text(text)
}

fn volume(id: u64, source: &str, mount: Option<&str>) -> Volume {
    Volume {
        id: VolumeId(id),
        mount_id: None,
        parent_mount_id: None,
        device_major: 8,
        device_minor: 1,
        mount_point: mount.map(path),
        source: source.to_owned(),
        filesystem: "ext4".to_owned(),
        label: None,
        uuid: None,
        mount_state: if mount.is_some() {
            MountState::MountedReadWrite
        } else {
            MountState::Unmounted
        },
        read_only: false,
        capacity_bytes: 3_000,
        used_bytes: mount.map(|_| 1_000),
        free_bytes: None,
        support: SupportStatus::Defragmentable,
    }
}

fn file(name: &str, excess_runs: u32) -> FileReport {
    FileReport {
        path: path(name),
        logical_bytes: 4096,
        allocated_bytes: 4096,
        physical_runs: excess_runs + 1,
        minimum_runs: 1,
        excess_runs,
        average_run_bytes: 1,
        eligible_for_plan: true,
        exclusion_reason: None,
        physical_ranges: vec![],
    }
}

fn report() -> AnalysisReport {
    AnalysisReport {
        volume: volume(1, "/dev/sda1", Some("/")),
        completeness: AnalysisCompleteness::Partial,
        coverage: ScanCoverage { files_scanned: 12, skipped_entries: 3, ..ScanCoverage::default() },
        fragmentation: FragmentationMetrics {
            fragmented_files: 2,
            total_physical_runs: 20,
            total_excess_runs: 8,
            fragmented_basis_points: Some(1_234),
            ..FragmentationMetrics::default()
        },
        files: vec![file("/a", 0), file("/b", 8)],
        map: vec![],
        warnings: vec![],
    }
}

fn plan(available_in_this_build: bool) -> PlanSummary {
    PlanSummary {
        volume_id: VolumeId(1),
        candidates: vec![],
        estimated_rewrite_bytes: 77,
        excluded_files: 5,
        warnings: vec![],
        requirements: ExecutionRequirements {
            mount_state: RequiredMountState::MountedReadWrite,
            requires_privilege: true,
            available_in_this_build,
        },
    }
}

fn selectable(volume: &Volume, backing: Option<&str>) -> Selectable {
    Selectable {
        id: volume.id,
        source: volume.source.clone(),
        places: volume_paths(volume, backing.map(path))
            .into_iter()
            .map(|path| Located { path, canonical: None })
            .collect(),
    }
}

#[test]
fn internal_volume_ids_accept_linux_major_minor_notation() {
    let id = parse_volume_id("259:6").unwrap();
    assert_eq!(id, VolumeId((259_u64 << 32) | 6));
}

#[test]
fn legacy_decimal_volume_ids_still_parse() {
    assert_eq!(parse_volume_id("1112396529670").unwrap(), VolumeId(1112396529670));
}

#[test]
fn wrong_volume_ids_say_what_is_wrong() {
    assert_eq!(parse_volume_id("x:6").unwrap_err(), "invalid device major number: x");
    assert_eq!(parse_volume_id("6:y").unwrap_err(), "invalid device minor number: y");
    assert_eq!(
        parse_volume_id("/dev/sda1").unwrap_err(),
        "invalid volume id: /dev/sda1; expected MAJOR:MINOR"
    );
}

#[test]
fn flags_are_taken_out_once() {
    let mut arguments = words(&["defrag", "--yes", "x", "--yes"]);
    assert!(take_flag(&mut arguments, "--yes"));
    assert_eq!(arguments, words(&["defrag", "x", "--yes"]));
    assert!(!take_flag(&mut arguments, "--direct"));
}

#[test]
fn words_become_commands() {
    for help in [&[][..], &["help"], &["-h"], &["--help", "more"]] {
        assert!(matches!(read_command(words(help)), Ok(Command::Help)));
    }
    assert!(matches!(read_command(words(&["list"])), Ok(Command::List)));
    match read_command(words(&["analyze", "/dev/sda1"])) {
        Ok(Command::Analyze { selector }) => assert_eq!(selector, "/dev/sda1"),
        _ => panic!("an analysis is asked for"),
    }
    match read_command(words(&["defrag", "--require-zero-excess", "/", "--yes"])) {
        Ok(Command::Defrag { selector, require_zero }) => {
            assert_eq!(selector, "/");
            assert!(require_zero);
        }
        _ => panic!("a defragmentation is asked for"),
    }
    assert!(matches!(
        read_command(words(&["defrag", "/", "--yes"])),
        Ok(Command::Defrag { require_zero: false, .. })
    ));
}

#[test]
fn nothing_is_written_without_confirmation() {
    assert_eq!(
        read_command(words(&["defrag", "/"])).unwrap_err(),
        "defrag modifies the filesystem; pass --yes to confirm"
    );
    assert_eq!(
        read_command(words(&["defrag"])).unwrap_err(),
        "defrag expects a device or mount path"
    );
    for wrong in [&["list", "x"][..], &["analyze"], &["other"]] {
        assert_eq!(
            read_command(words(wrong)).unwrap_err(),
            "invalid command; run defragger-cli --help"
        );
    }
}

#[test]
fn the_helper_is_started_by_its_own_word() {
    let started = vec![path("/bin/x"), path("--defragger-development-helper"), path("/run/s")];
    assert_eq!(development_helper_socket(&started).unwrap().display(), "/run/s");
    assert!(development_helper_socket(&vec![path("/bin/x"), path("list")]).is_none());
    let wrong = vec![path("/bin/x"), path("--other"), path("/run/s")];
    assert!(development_helper_socket(&wrong).is_none());
}

#[test]
fn volumes_are_meant_by_their_paths() {
    let first = volume(1, "/dev/sda1", Some("/"));
    let second = volume(2, "/dev/loop0", None);
    let volumes = vec![selectable(&first, None), selectable(&second, Some("/img/disk"))];
    assert_eq!(resolve_volume_id("/dev/sda1", None, &volumes).unwrap(), VolumeId(1));
    assert_eq!(resolve_volume_id("/dev//sda1/", None, &volumes).unwrap(), VolumeId(1));
    assert_eq!(resolve_volume_id("/", None, &volumes).unwrap(), VolumeId(1));
    assert_eq!(resolve_volume_id("/img/disk", None, &volumes).unwrap(), VolumeId(2));
    assert_eq!(resolve_volume_id("2", None, &volumes).unwrap(), VolumeId(2));
    assert_eq!(
        resolve_volume_id("3", None, &volumes).unwrap_err(),
        "no volume matches 3; available devices: /dev/sda1, /dev/loop0"
    );
    let twice = vec![selectable(&first, None), selectable(&volume(5, "/dev/x", Some("/")), None)];
    assert_eq!(
        resolve_volume_id("/", None, &twice).unwrap_err(),
        "/ matches more than one volume"
    );
}

#[test]
fn links_lead_to_the_volumes_behind_them() {
    let link = Located { path: path("/dev/disk/x"), canonical: Some(path("/dev/sda1")) };
    let device = Located { path: path("/dev/sda"), canonical: Some(path("/dev/sda1")) };
    assert!(path_matches(&link, &device));
    assert!(!path_matches(&link, &Located { path: path("/dev/sda1"), canonical: None }));
}

#[test]
fn loop_devices_have_files_behind_them() {
    assert_eq!(loop_device("/dev/loop7").as_deref(), Some("loop7"));
    assert_eq!(loop_device("/dev/sda1"), None);
    assert_eq!(loop_backing_file("/img/disk (deleted)\n").unwrap().display(), "/img/disk");
    assert_eq!(loop_backing_file(" /img/disk \n").unwrap().display(), "/img/disk");
    assert!(loop_backing_file("\n").is_none());
}

#[test]
fn shares_are_shown_in_percent() {
    assert_eq!(format_basis_points(Some(1_205)), "12.05%");
    assert_eq!(format_basis_points(None), "unknown");
    assert_eq!(occupancy(&volume(1, "/dev/sda1", Some("/"))), "33.33%");
    assert_eq!(occupancy(&volume(1, "/dev/sda1", None)), "unknown");
    let mut full = volume(1, "/dev/sda1", Some("/"));
    full.used_bytes = Some(u64::MAX);
    assert_eq!(occupancy(&full), "100.00%");
    full.capacity_bytes = 0;
    assert_eq!(occupancy(&full), "unknown");
    assert_eq!(display_path(&None), "-");
    assert_eq!(ranges(&vec![]), "-");
    let list = vec![
        PhysicalRange { offset_bytes: 1, length_bytes: 2 },
        PhysicalRange { offset_bytes: 3, length_bytes: 4 },
    ];
    assert_eq!(ranges(&list), "1:2,3:4");
}

#[test]
fn the_list_has_aligned_columns() {
    let volumes = vec![volume(1, "/dev/sda1", Some("/")), volume(2, "/dev/mapper/x", None)];
    assert_eq!(
        list(&volumes),
        vec![
            "SOURCE         FS    STATE       MOUNT  OCCUPANCY  SUPPORT",
            "/dev/sda1      ext4  mounted-rw  /      33.33%     defragmentable",
            "/dev/mapper/x  ext4  unmounted   -      unknown    defragmentable",
        ]
    );
}

#[test]
fn events_of_an_analysis_are_shown() {
    let progress = ServiceEvent::Progress(JobProgress {
        job_id: JobId(1),
        phase: AnalysisPhase::WalkingFiles,
        files_scanned: 5,
        bytes_scanned: 6,
        current_path: Some(path("/a b")),
    });
    match cli::analyze(progress) {
        Turn::Note(line) => {
            assert_eq!(line, "PROGRESS analysis files=5 bytes=6 path=/a b")
        }
        _ => panic!("progress is shown"),
    }
    assert!(matches!(
        cli::analyze(ServiceEvent::AnalysisFinished {
            job_id: JobId(1),
            analysis_id: AnalysisId(2),
            report: Box::new(report()),
        }),
        Turn::Analyzed { analysis_id: AnalysisId(2), .. }
    ));
    match cli::analyze(ServiceEvent::JobCancelled { job_id: JobId(1) }) {
        Turn::Failed(message) => assert_eq!(message, "cancelled safely"),
        _ => panic!("a cancelled job failed"),
    }
    assert!(matches!(
        cli::analyze(ServiceEvent::AnalysisStarted { job_id: JobId(1) }),
        Turn::Quiet
    ));
}

#[test]
fn events_of_a_defragmentation_are_shown() {
    let note = |event| match cli::defrag(event) {
        Turn::Note(line) => line,
        _ => panic!("a line is shown"),
    };
    let progress = DefragProgress {
        job_id: JobId(1),
        phase: DefragPhase::MovingExtents,
        files_completed: 1,
        files_total: 2,
        bytes_moved: 3,
        bytes_total: 4,
        current_path: None,
    };
    assert_eq!(
        note(ServiceEvent::DefragProgress(progress)),
        "PROGRESS defrag phase=MovingExtents files=1/2 bytes=3/4 path=-"
    );
    let pending = ServiceEvent::DefragPendingIo {
        job_id: JobId(1),
        reading: vec![PhysicalRange { offset_bytes: 9, length_bytes: 1 }],
        writing: vec![],
    };
    assert_eq!(note(pending), "ACTIVITY read=9:1 write=-");
    let updated = ServiceEvent::DefragFileUpdated {
        job_id: JobId(1),
        file: file("/b", 3),
        fragmentation: report().fragmentation,
        bytes_moved: 4096,
    };
    assert_eq!(
        note(updated),
        "FILE path=/b fragments=4 extra_fragments=3 remaining_extra_fragments=8"
    );
    assert!(matches!(
        cli::defrag(ServiceEvent::DefragStopped { job_id: JobId(1), report: Box::new(report()) }),
        Turn::Ended { stopped: true, .. }
    ));
    assert!(matches!(
        cli::defrag(ServiceEvent::Failed { job_id: None, message: "x".to_owned() }),
        Turn::Failed(_)
    ));
}

#[test]
fn reports_are_shown_in_two_lines() {
    let report = report();
    assert_eq!(
        show_volume(&report.volume, "2.9KiB", "1000B", "unknown"),
        "VOLUME filesystem=ext4 capacity=2.9KiB used=1000B free=unknown occupancy=33.33%"
    );
    assert_eq!(
        show_report("BEFORE", &report),
        "BEFORE files=12 fragmented_files=2 fragmented_data=12.34% fragments=20 extra_fragments=8 skipped=3 completeness=Partial"
    );
    assert_eq!(show_plan(&plan(true)), "PLAN candidates=0 bytes=77 excluded=5");
    assert!(plan_is_executable(&plan(true)).is_ok());
    assert_eq!(
        plan_is_executable(&plan(false)).unwrap_err(),
        "plan cannot be executed by this build"
    );
    assert!(cli::conclude(&report, false).is_ok());
    assert_eq!(cli::conclude(&report, true).unwrap_err(), "8 extra fragments remain");
    assert_eq!((end_label(true), end_label(false)), ("STOPPED", "AFTER"));
}

#[test]
fn callers_are_known_by_their_names() {
    let helper = Helper::new(AuthorizationMode::PolicyKit);
    assert_eq!(helper.owner(Some(":1.7".to_owned())).unwrap(), ":1.7");
    assert!(matches!(helper.owner(None), Err(HelperError::AccessDenied(_))));
    let peer = Helper::new(AuthorizationMode::TrustedPeer);
    assert_eq!(peer.owner(None).unwrap(), "development-peer");
    assert_eq!(action(Leave::ReadAllFiles), "net.gootz.defragger.read-all-files");
    assert_eq!(action(Leave::ModifyFilesystem), "net.gootz.defragger.modify-filesystem");
    assert_eq!(authorized(":1.7".to_owned(), Leave::ReadAllFiles, true).unwrap(), ":1.7");
    match authorized(":1.7".to_owned(), Leave::ReadAllFiles, false) {
        Err(HelperError::AccessDenied(message)) => {
            assert_eq!(message, "authorization to inspect all files was not granted")
        }
        _ => panic!("the caller is refused"),
    }
}

#[test]
fn a_client_owns_one_job_and_nobody_else_reaches_it() {
    let mut helper = Helper::new(AuthorizationMode::PolicyKit);
    helper.may_start("a").unwrap();
    helper.job_started(JobId(1), "a", 0);
    assert!(matches!(helper.may_start("a"), Err(HelperError::LimitsExceeded(_))));
    assert!(helper.may_start("b").is_ok());
    assert!(helper.control_job(1, "a").is_ok());
    match helper.control_job(1, "b") {
        Err(HelperError::AccessDenied(message)) => {
            assert_eq!(message, "the analysis job belongs to a different client")
        }
        _ => panic!("another client is refused"),
    }
    match helper.next_event(2, "a", 5) {
        Err(HelperError::UnknownObject(message)) => {
            assert_eq!(message, "analysis job 2 was not found")
        }
        _ => panic!("there is no such job"),
    }
    helper.next_event(1, "a", 5).unwrap();
    assert_eq!(helper.jobs[0].last_used, 5);
    assert!(matches!(helper.stream_closed(1), HelperError::Failed(_)));
    assert!(helper.may_start("a").is_ok());
}

#[test]
fn finished_analyses_belong_to_the_owners_of_their_jobs() {
    let mut helper = Helper::new(AuthorizationMode::PolicyKit);
    helper.job_started(JobId(1), "a", 0);
    let event = ServiceEvent::AnalysisFinished {
        job_id: JobId(1),
        analysis_id: AnalysisId(4),
        report: Box::new(report()),
    };
    match helper.event_came(1, "a", event, 7) {
        ServiceEvent::AnalysisFinished { report, .. } => {
            assert_eq!(report.files.len(), 1);
            assert_eq!(report.files[0].path.display(), "/b");
        }
        _ => panic!("the event is sent on"),
    }
    assert!(helper.jobs.is_empty());
    assert!(helper.build_plan(4, "a", 9).is_ok());
    match helper.build_plan(4, "b", 9) {
        Err(HelperError::AccessDenied(message)) => {
            assert_eq!(message, "the analysis belongs to a different client")
        }
        _ => panic!("another client is refused"),
    }
    match helper.build_plan(5, "a", 9) {
        Err(HelperError::UnknownObject(message)) => {
            assert_eq!(message, "analysis 5 was not found")
        }
        _ => panic!("there is no such analysis"),
    }
    helper.plan_built(PlanId(8), "a", 9);
    assert!(matches!(helper.start_defrag(8, "b"), Err(HelperError::AccessDenied(_))));
    helper.start_defrag(8, "a").unwrap();
    assert!(matches!(helper.start_defrag(8, "a"), Err(HelperError::UnknownObject(_))));
}

#[test]
fn what_nobody_asks_for_is_given_up() {
    let mut helper = Helper::new(AuthorizationMode::PolicyKit);
    helper.job_started(JobId(1), "a", 0);
    helper.job_started(JobId(2), "b", 1);
    helper.event_came(
        9,
        "a",
        ServiceEvent::AnalysisFinished {
            job_id: JobId(9),
            analysis_id: AnalysisId(4),
            report: Box::new(report()),
        },
        0,
    );
    let (jobs, analyses) = helper.reap(ABANDONED_AFTER);
    assert_eq!(jobs, vec![1]);
    assert!(analyses.is_empty());
    assert_eq!(helper.jobs.len(), 1);
    let (_, analyses) = helper.reap(EXPIRED_AFTER);
    assert_eq!(analyses, vec![4]);
    assert!(helper.analyses.is_empty());
    assert_eq!((wait_limit(5), wait_limit(5_000)), (5, 1_000));
}

#[test]
fn watched_jobs_end_with_the_helper() {
    let (event, last) = watch_job(3, Err(PrivilegedClientError::Bus("gone".to_owned())));
    match event {
        Some(ServiceEvent::Failed { job_id: Some(JobId(3)), message }) => {
            assert_eq!(message, "could not contact the privileged analysis service: gone")
        }
        _ => panic!("the job failed"),
    }
    assert!(last);
    assert!(matches!(watch_job(3, Ok(None)), (None, false)));
    let started = ServiceEvent::AnalysisStarted { job_id: JobId(3) };
    assert!(matches!(watch_job(3, Ok(Some(started))), (Some(_), false)));
    let ended = ServiceEvent::JobCancelled { job_id: JobId(3) };
    assert!(matches!(watch_job(3, Ok(Some(ended))), (Some(_), true)));
    assert_eq!((timeout_millis(100), timeout_millis(u128::MAX)), (100, u32::MAX));
}

#[test]
fn the_helper_is_reached_by_one_name() {
    assert_eq!(BUS_NAME, "net.gootz.defragger.Helper");
    assert_eq!(OBJECT_PATH, "/net/gootz/defragger/Helper");
    assert_eq!(INTERFACE, "net.gootz.defragger.Helper1");
}

#[test]
fn sockets_are_made_in_private_directories() {
    let directory = runtime_directory(Some(path("/run/user/1000"))).unwrap();
    assert!(matches!(runtime_directory(None), Err(SocketError::NotFound)));
    let private = DirectoryFacts { is_directory: true, owner: 1000, mode: 0o40700 };
    assert_eq!(
        development_socket_path(&directory, private, 1000, 42, u128::from(u64::MAX) + 1)
            .unwrap()
            .display(),
        "/run/user/1000/defragger-development-42-18446744073709551616.socket"
    );
    for open in [
        DirectoryFacts { is_directory: false, ..private },
        DirectoryFacts { owner: 0, ..private },
        DirectoryFacts { mode: 0o40701, ..private },
    ] {
        assert!(matches!(
            development_socket_path(&directory, open, 1000, 42, 1),
            Err(SocketError::PermissionDenied)
        ));
    }
    assert!(socket_error(SocketError::NotFound).starts_with("XDG_RUNTIME_DIR is not set"));
}

#[test]
fn the_client_waits_for_the_helper_a_while() {
    let words = launch_words(42);
    assert_eq!(words.len(), 17);
    assert_eq!(words[0], "--system");
    assert_eq!(words[16], "--unit=defragger-development-helper-42");
    assert!(matches!(launch_outcome(false), Err(PrivilegedClientError::LaunchRejected)));
    assert!(launch_outcome(true).is_ok());
    assert!(matches!(await_helper(Arrival::Connected, 0), LaunchStep::GoOn));
    assert!(matches!(await_helper(Arrival::NobodyYet, 9_999), LaunchStep::LookAgain));
    assert!(matches!(
        await_helper(Arrival::NobodyYet, 10_000),
        LaunchStep::GiveUp(PrivilegedClientError::LaunchTimedOut)
    ));
    match await_helper(Arrival::Failed("x".to_owned()), 0) {
        LaunchStep::GiveUp(failure) => assert_eq!(
            failure.message(),
            "could not launch the transient development helper: x"
        ),
        _ => panic!("the client gives up"),
    }
}

#[test]
fn a_number_is_kept_once() {
    let mut helper = Helper::new(AuthorizationMode::PolicyKit);
    helper.plan_built(PlanId(3), "a", 0);
    helper.plan_built(PlanId(4), "a", 1);
    helper.plan_built(PlanId(3), "b", 2);
    let numbers: Vec<u64> = helper.plans.iter().map(|entry| entry.id).collect();
    assert_eq!(numbers, vec![4, 3]);
    assert_eq!(helper.plans[1].owner, "b");
}
