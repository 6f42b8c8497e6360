//! The client of a helper in another process: how it starts the helper, waits
//! for it, and hands on the events that it is sent.

use vstd::prelude::*;
use vstd::utf8::*;

use crate::domain::{EventView, JobId, ServiceEvent};
use crate::path;
use crate::path::FsPath;
use crate::service;
use crate::text;
use crate::views;

verus! {

/// The name of the helper on the bus.
pub const BUS_NAME: &'static str = "net.gootz.defragger.Helper";

/// The path of the helper's object.
pub const OBJECT_PATH: &'static str = "/net/gootz/defragger/Helper";

/// The interface of the helper's object.
pub const INTERFACE: &'static str = "net.gootz.defragger.Helper1";

/// Why a request to the helper failed.
#[derive(Debug)]
pub enum PrivilegedClientError {
    Bus(String),
    Protocol(String),
    Io(String),
    LaunchRejected,
    LaunchTimedOut,
}

/// The contents of a [`PrivilegedClientError`].
#[verifier::ext_equal]
pub enum ClientErrorView {
    Bus(Seq<char>),
    Protocol(Seq<char>),
    Io(Seq<char>),
    LaunchRejected,
    LaunchTimedOut,
}

impl View for PrivilegedClientError {
    type V = ClientErrorView;

    open spec fn view(&self) -> ClientErrorView {
        match self {
            PrivilegedClientError::Bus(detail) => ClientErrorView::Bus(detail@),
            PrivilegedClientError::Protocol(detail) => ClientErrorView::Protocol(detail@),
            PrivilegedClientError::Io(detail) => ClientErrorView::Io(detail@),
            PrivilegedClientError::LaunchRejected => ClientErrorView::LaunchRejected,
            PrivilegedClientError::LaunchTimedOut => ClientErrorView::LaunchTimedOut,
        }
    }
}

/// The text of a failure.
pub open spec fn failure_text(failure: ClientErrorView) -> Seq<char> {
    match failure {
        ClientErrorView::Bus(detail) => "could not contact the privileged analysis service: "@
            + detail,
        ClientErrorView::Protocol(detail) =>
        "the privileged analysis service returned invalid data: "@ + detail,
        ClientErrorView::Io(detail) => "could not launch the transient development helper: "@
            + detail,
        ClientErrorView::LaunchRejected =>
        "systemd refused to launch the transient development helper"@,
        ClientErrorView::LaunchTimedOut => "the transient development helper did not connect"@,
    }
}

impl PrivilegedClientError {
    /// Writes the failure as text.
    pub fn message(&self) -> (message: String)
        ensures
            message@ == failure_text(self@),
    {
        let (head, detail) = match self {
            PrivilegedClientError::Bus(detail) => (
                "could not contact the privileged analysis service: ",
                detail,
            ),
            PrivilegedClientError::Protocol(detail) => (
                "the privileged analysis service returned invalid data: ",
                detail,
            ),
            PrivilegedClientError::Io(detail) => (
                "could not launch the transient development helper: ",
                detail,
            ),
            PrivilegedClientError::LaunchRejected => {
                return "systemd refused to launch the transient development helper".to_owned();
            },
            PrivilegedClientError::LaunchTimedOut => {
                return "the transient development helper did not connect".to_owned();
            },
        };
        let mut message: String = head.to_owned();
        text::push_text(&mut message, detail.as_str());
        message
    }
}

// ---------------------------------------------------------------------
// Events
// ---------------------------------------------------------------------

/// What the helper answers to the question for an event, by its contents.
pub open spec fn answer(
    reply: Result<Option<ServiceEvent>, PrivilegedClientError>,
) -> Result<Option<EventView>, ClientErrorView> {
    match reply {
        Ok(event) => Ok(views::opt(event)),
        Err(failure) => Err(failure@),
    }
}

/// The event that is handed on after an answer, if any.
pub open spec fn handed_on(
    job_id: u64,
    reply: Result<Option<EventView>, ClientErrorView>,
) -> Option<EventView> {
    match reply {
        Ok(event) => event,
        Err(failure) => Some(
            EventView::Failed { job_id: Some(JobId(job_id)), message: failure_text(failure) },
        ),
    }
}

/// Takes in an answer of the helper: gives the event that is handed on, and
/// tells whether the job is watched no longer.
pub fn watch_job(
    job_id: u64,
    reply: Result<Option<ServiceEvent>, PrivilegedClientError>,
) -> (step: (Option<ServiceEvent>, bool))
    ensures
        views::opt(step.0) == handed_on(job_id, answer(reply)),
        step.1 == (views::opt(step.0) matches Some(event) && service::ends_job(event)),
{
    match reply {
        Ok(Some(event)) => {
            let last: bool = service::is_terminal(&event);
            (Some(event), last)
        },
        Ok(None) => (None, false),
        Err(failure) => {
            let event = ServiceEvent::Failed {
                job_id: Some(JobId(job_id)),
                message: failure.message(),
            };
            (Some(event), true)
        },
    }
}

/// The time to wait for an event, as the helper takes it.
pub fn timeout_millis(millis: u128) -> (timeout: u32)
    ensures
        timeout == (if millis <= u32::MAX {
            millis as int
        } else {
            u32::MAX as int
        }),
{
    if millis <= u32::MAX as u128 {
        millis as u32
    } else {
        u32::MAX
    }
}

// ---------------------------------------------------------------------
// Starting the helper
// ---------------------------------------------------------------------

/// The facts of a directory that decide whether it is private.
#[derive(Clone, Copy, Debug, PartialEq, Eq, Structural)]
pub struct DirectoryFacts {
    pub is_directory: bool,
    pub owner: u32,
    pub mode: u32,
}

/// Whether only one user can reach into a directory.
pub open spec fn is_private(facts: DirectoryFacts, user: u32) -> bool {
    facts.is_directory && facts.owner == user && facts.mode & 0o077 == 0
}

/// Why no socket can be made.
#[derive(Clone, Copy, Debug, PartialEq, Eq, Structural)]
pub enum SocketError {
    /// The session has no directory for it.
    NotFound,
    /// The directory of the session is not private.
    PermissionDenied,
}

/// The text of a failure to make a socket.
pub open spec fn socket_error_text(failure: SocketError) -> Seq<char> {
    match failure {
        SocketError::NotFound =>
        "XDG_RUNTIME_DIR is not set; transient privileged mode requires a desktop session"@,
        SocketError::PermissionDenied =>
        "XDG_RUNTIME_DIR must be a private directory owned by the current user"@,
    }
}

/// Writes a failure to make a socket as text.
pub fn socket_error(failure: SocketError) -> (message: &'static str)
    ensures
        message@ == socket_error_text(failure),
{
    match failure {
        SocketError::NotFound =>
        "XDG_RUNTIME_DIR is not set; transient privileged mode requires a desktop session",
        SocketError::PermissionDenied =>
        "XDG_RUNTIME_DIR must be a private directory owned by the current user",
    }
}

/// Finds the directory that a session names for its sockets.
pub fn runtime_directory(named: Option<FsPath>) -> (directory: Result<FsPath, SocketError>)
    ensures
        match named {
            Some(path) => directory matches Ok(d) && d@ == path@,
            None => directory == Err::<FsPath, SocketError>(SocketError::NotFound),
        },
{
    match named {
        Some(path) => Ok(path),
        None => Err(SocketError::NotFound),
    }
}

/// The name of a socket.
pub open spec fn socket_name(process: u32, nonce: u128) -> Seq<char> {
    "defragger-development-"@ + text::decimal(process as nat) + "-"@ + text::decimal(nonce as nat)
        + ".socket"@
}

/// Names the socket for the helper, in a directory that is private to the
/// user.
pub fn development_socket_path(
    directory: &FsPath,
    facts: DirectoryFacts,
    user: u32,
    process: u32,
    nonce: u128,
) -> (socket: Result<FsPath, SocketError>)
    ensures
        match socket {
            Ok(p) => is_private(facts, user) && p@ == path::joined(
                directory@,
                encode_utf8(socket_name(process, nonce)),
            ),
            Err(failure) => !is_private(facts, user) && failure == SocketError::PermissionDenied,
        },
{
    if !facts.is_directory || facts.owner != user || facts.mode & 0o077 != 0 {
        return Err(SocketError::PermissionDenied);
    }
    let mut name: String = "defragger-development-".to_owned();
    text::push_decimal(&mut name, process as u64);
    text::push_text(&mut name, "-");
    text::push_wide_decimal(&mut name, nonce);
    text::push_text(&mut name, ".socket");
    Ok(directory.join(&FsPath::from_text(name.as_str())))
}

/// The words that have systemd start the helper, before its executable.
pub open spec fn launch_texts(process: u32) -> Seq<Seq<char>> {
    seq![
        "--system"@,
        "--quiet"@,
        "--collect"@,
        "--service-type=exec"@,
        "--uid=0"@,
        "--description=Defragger transient development helper"@,
        "--property=NoNewPrivileges=yes"@,
        "--property=CapabilityBoundingSet=CAP_DAC_READ_SEARCH CAP_DAC_OVERRIDE CAP_FOWNER CAP_SYS_RAWIO CAP_SYS_ADMIN"@,
        "--property=RestrictAddressFamilies=AF_UNIX"@,
        "--property=LockPersonality=yes"@,
        "--property=MemoryDenyWriteExecute=yes"@,
        "--property=PrivateTmp=yes"@,
        "--property=ProtectControlGroups=yes"@,
        "--property=ProtectKernelModules=yes"@,
        "--property=ProtectKernelTunables=yes"@,
        "--property=RestrictRealtime=yes"@,
        "--unit=defragger-development-helper-"@ + text::decimal(process as nat),
    ]
}

/// Lists the words that have systemd start the helper, before its
/// executable.
pub fn launch_words(process: u32) -> (words: Vec<String>)
    ensures
        views::of(words@) == launch_texts(process),
{
    let mut words: Vec<String> = Vec::new();
    words.push("--system".to_owned());
    words.push("--quiet".to_owned());
    words.push("--collect".to_owned());
    words.push("--service-type=exec".to_owned());
    words.push("--uid=0".to_owned());
    words.push("--description=Defragger transient development helper".to_owned());
    words.push("--property=NoNewPrivileges=yes".to_owned());
    words.push(
        "--property=CapabilityBoundingSet=CAP_DAC_READ_SEARCH CAP_DAC_OVERRIDE CAP_FOWNER CAP_SYS_RAWIO CAP_SYS_ADMIN".to_owned(),
    );
    words.push("--property=RestrictAddressFamilies=AF_UNIX".to_owned());
    words.push("--property=LockPersonality=yes".to_owned());
    words.push("--property=MemoryDenyWriteExecute=yes".to_owned());
    words.push("--property=PrivateTmp=yes".to_owned());
    words.push("--property=ProtectControlGroups=yes".to_owned());
    words.push("--property=ProtectKernelModules=yes".to_owned());
    words.push("--property=ProtectKernelTunables=yes".to_owned());
    words.push("--property=RestrictRealtime=yes".to_owned());
    let mut unit: String = "--unit=defragger-development-helper-".to_owned();
    text::push_decimal(&mut unit, process as u64);
    words.push(unit);
    assert(views::of(words@) =~= launch_texts(process));
    words
}

/// Says whether systemd started the helper.
pub fn launch_outcome(started: bool) -> (result: Result<(), PrivilegedClientError>)
    ensures
        match result {
            Ok(_) => started,
            Err(failure) => !started && failure@ == ClientErrorView::LaunchRejected,
        },
{
    if started {
        Ok(())
    } else {
        Err(PrivilegedClientError::LaunchRejected)
    }
}

/// How long the client waits for the helper, in milliseconds.
pub const LAUNCH_DEADLINE: u64 = 10_000;

/// What came of one look at the socket.
#[derive(Debug)]
pub enum Arrival {
    Connected,
    NobodyYet,
    Failed(String),
}

/// What the client does after it has looked at the socket.
#[derive(Debug)]
pub enum LaunchStep {
    /// The helper is there.
    GoOn,
    /// The client looks again a little later.
    LookAgain,
    /// The client gives up.
    GiveUp(PrivilegedClientError),
}

/// Decides what the client does after it has looked at the socket, when it
/// has waited for so many milliseconds.
pub fn await_helper(arrival: Arrival, waited: u64) -> (step: LaunchStep)
    ensures
        match arrival {
            Arrival::Connected => step is GoOn,
            Arrival::NobodyYet => if waited >= LAUNCH_DEADLINE {
                step matches LaunchStep::GiveUp(failure) && failure@
                    == ClientErrorView::LaunchTimedOut
            } else {
                step is LookAgain
            },
            Arrival::Failed(detail) => step matches LaunchStep::GiveUp(failure) && failure@
                == ClientErrorView::Io(detail@),
        },
{
    match arrival {
        Arrival::Connected => LaunchStep::GoOn,
        Arrival::NobodyYet => if waited >= LAUNCH_DEADLINE {
            LaunchStep::GiveUp(PrivilegedClientError::LaunchTimedOut)
        } else {
            LaunchStep::LookAgain
        },
        Arrival::Failed(detail) => LaunchStep::GiveUp(PrivilegedClientError::Io(detail)),
    }
}

// ---------------------------------------------------------------------
// What holds of every watched job
// ---------------------------------------------------------------------

/// A watched job always ends with an event that ends a job, also where the
/// helper can no longer be reached.
pub proof fn lemma_watching_ends_with_the_job(
    job_id: u64,
    reply: Result<Option<EventView>, ClientErrorView>,
)
    ensures
        reply is Err ==> handed_on(job_id, reply) is Some && service::ends_job(
            handed_on(job_id, reply)->0,
        ),
        reply matches Ok(event) ==> handed_on(job_id, reply) == event,
{
}

} // verus!
