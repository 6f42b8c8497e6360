//! Why a request fails.

use vstd::prelude::*;

use crate::domain::{AnalysisId, OptimizationMode, PlanId, VolumeId};
use crate::linux::IoctlError;
use crate::text;

verus! {

/// The kinds of I/O failure that the service tells apart.
#[derive(Clone, Copy, Debug, PartialEq, Eq, Structural)]
pub enum IoKind {
    NotFound,
    PermissionDenied,
    BrokenPipe,
    InvalidInput,
    InvalidData,
    UnexpectedEof,
    WriteZero,
    FileTooLarge,
    ReadOnlyFilesystem,
    Other,
}

/// A failed I/O operation: its kind, the error number where the system gave
/// one, and its text.
#[derive(Debug)]
pub struct OsError {
    pub kind: IoKind,
    pub code: Option<i32>,
    pub message: String,
}

/// The contents of an [`OsError`].
#[verifier::ext_equal]
pub struct OsErrorView {
    pub kind: IoKind,
    pub code: Option<i32>,
    pub message: Seq<char>,
}

impl View for OsError {
    type V = OsErrorView;

    open spec fn view(&self) -> OsErrorView {
        OsErrorView { kind: self.kind, code: self.code, message: self.message@ }
    }
}

impl Clone for OsError {
    fn clone(&self) -> (copy: Self)
        ensures
            copy@ == self@,
    {
        OsError { kind: self.kind, code: self.code, message: self.message.clone() }
    }
}

impl OsError {
    /// A failure that the service itself reports.
    pub fn new(kind: IoKind, message: &str) -> (error: OsError)
        ensures
            error@ == (OsErrorView { kind, code: None, message: message@ }),
    {
        OsError { kind, code: None, message: message.to_owned() }
    }
}

/// Why a request to the service fails.
#[derive(Debug)]
pub enum ServiceError {
    Io(OsError),
    Kernel(IoctlError),
    VolumeNotFound(VolumeId),
    UnsupportedFilesystem(String),
    AnalysisNotFound(AnalysisId),
    PlanNotFound(PlanId),
    ExecutionUnavailable,
    UnmountUnavailable(String),
    UnsupportedOptimizationMode { filesystem: String, mode: OptimizationMode },
    UnsafeFilesystem(String),
    Cancelled,
    Poisoned,
}

/// The contents of a [`ServiceError`].
#[verifier::ext_equal]
pub enum ErrorView {
    Io(OsErrorView),
    Kernel(IoctlErrorView),
    VolumeNotFound(VolumeId),
    UnsupportedFilesystem(Seq<char>),
    AnalysisNotFound(AnalysisId),
    PlanNotFound(PlanId),
    ExecutionUnavailable,
    UnmountUnavailable(Seq<char>),
    UnsupportedOptimizationMode { filesystem: Seq<char>, mode: OptimizationMode },
    UnsafeFilesystem(Seq<char>),
    Cancelled,
    Poisoned,
}

/// The contents of an [`IoctlError`].
#[verifier::ext_equal]
pub enum IoctlErrorView {
    Io { operation: Seq<char>, source: OsErrorView },
    InvalidCount(Seq<char>),
    DidNotAdvance,
}

impl View for IoctlError {
    type V = IoctlErrorView;

    open spec fn view(&self) -> IoctlErrorView {
        match self {
            IoctlError::Io { operation, source } => IoctlErrorView::Io {
                operation: operation@,
                source: source@,
            },
            IoctlError::InvalidCount(call) => IoctlErrorView::InvalidCount(call@),
            IoctlError::DidNotAdvance => IoctlErrorView::DidNotAdvance,
        }
    }
}

impl View for ServiceError {
    type V = ErrorView;

    open spec fn view(&self) -> ErrorView {
        match self {
            ServiceError::Io(error) => ErrorView::Io(error@),
            ServiceError::Kernel(error) => ErrorView::Kernel(error@),
            ServiceError::VolumeNotFound(id) => ErrorView::VolumeNotFound(*id),
            ServiceError::UnsupportedFilesystem(name) => ErrorView::UnsupportedFilesystem(name@),
            ServiceError::AnalysisNotFound(id) => ErrorView::AnalysisNotFound(*id),
            ServiceError::PlanNotFound(id) => ErrorView::PlanNotFound(*id),
            ServiceError::ExecutionUnavailable => ErrorView::ExecutionUnavailable,
            ServiceError::UnmountUnavailable(reason) => ErrorView::UnmountUnavailable(reason@),
            ServiceError::UnsupportedOptimizationMode { filesystem, mode } =>
                ErrorView::UnsupportedOptimizationMode { filesystem: filesystem@, mode: *mode },
            ServiceError::UnsafeFilesystem(reason) => ErrorView::UnsafeFilesystem(reason@),
            ServiceError::Cancelled => ErrorView::Cancelled,
            ServiceError::Poisoned => ErrorView::Poisoned,
        }
    }
}

/// The name of an optimization mode.
pub open spec fn mode_text(mode: OptimizationMode) -> Seq<char> {
    match mode {
        OptimizationMode::Defragment => "Defragment"@,
        OptimizationMode::Compact => "Compact"@,
    }
}

/// The text of a failed kernel query.
pub open spec fn ioctl_error_text(error: IoctlErrorView) -> Seq<char> {
    match error {
        IoctlErrorView::Io { operation, source } => operation + ": "@ + source.message,
        IoctlErrorView::InvalidCount(call) => "kernel returned an invalid "@ + call
            + " record count"@,
        IoctlErrorView::DidNotAdvance => "kernel mapping query did not advance"@,
    }
}

/// The text of a failed request.
pub open spec fn error_text(error: ErrorView) -> Seq<char> {
    match error {
        ErrorView::Io(error) => error.message,
        ErrorView::Kernel(error) => ioctl_error_text(error),
        ErrorView::VolumeNotFound(id) => "volume VolumeId("@ + text::decimal(id.0 as nat)
            + ") is no longer mounted"@,
        ErrorView::UnsupportedFilesystem(name) => "filesystem "@ + name + " is not supported"@,
        ErrorView::AnalysisNotFound(id) => "analysis AnalysisId("@ + text::decimal(id.0 as nat)
            + ") was not found"@,
        ErrorView::PlanNotFound(id) => "plan PlanId("@ + text::decimal(id.0 as nat)
            + ") was not found"@,
        ErrorView::ExecutionUnavailable =>
            "defragmentation execution is unavailable for this plan"@,
        ErrorView::UnmountUnavailable(reason) => "automatic unmount is unavailable: "@ + reason,
        ErrorView::UnsupportedOptimizationMode { filesystem, mode } => mode_text(mode)
            + " optimization is not supported for "@ + filesystem,
        ErrorView::UnsafeFilesystem(reason) => "unsafe or inconsistent filesystem: "@ + reason,
        ErrorView::Cancelled => "job was cancelled"@,
        ErrorView::Poisoned => "service state was poisoned"@,
    }
}

impl IoctlError {
    /// The text of the error.
    pub fn message(&self) -> (message: String)
        ensures
            message@ == ioctl_error_text(self@),
    {
        match self {
            IoctlError::Io { operation, source } => {
                let mut message: String = (*operation).to_owned();
                text::push_text(&mut message, ": ");
                text::push_text(&mut message, source.message.as_str());
                message
            },
            IoctlError::InvalidCount(call) => {
                let mut message: String = "kernel returned an invalid ".to_owned();
                text::push_text(&mut message, call);
                text::push_text(&mut message, " record count");
                message
            },
            IoctlError::DidNotAdvance => "kernel mapping query did not advance".to_owned(),
        }
    }
}

fn numbered(head: &str, id: u64, tail: &str) -> (message: String)
    ensures
        message@ == head@ + text::decimal(id as nat) + tail@,
{
    let mut message: String = head.to_owned();
    text::push_decimal(&mut message, id);
    text::push_text(&mut message, tail);
    message
}

fn surrounded(head: &str, middle: &str, tail: &str) -> (message: String)
    ensures
        message@ == head@ + middle@ + tail@,
{
    let mut message: String = head.to_owned();
    text::push_text(&mut message, middle);
    text::push_text(&mut message, tail);
    message
}

fn mode_name(mode: OptimizationMode) -> (name: String)
    ensures
        name@ == mode_text(mode),
{
    match mode {
        OptimizationMode::Defragment => "Defragment".to_owned(),
        OptimizationMode::Compact => "Compact".to_owned(),
    }
}

impl ServiceError {
    /// The text of the error.
    pub fn message(&self) -> (message: String)
        ensures
            message@ == error_text(self@),
    {
        match self {
            ServiceError::Io(error) => error.message.clone(),
            ServiceError::Kernel(error) => error.message(),
            ServiceError::VolumeNotFound(id) => numbered(
                "volume VolumeId(",
                id.0,
                ") is no longer mounted",
            ),
            ServiceError::UnsupportedFilesystem(name) => surrounded(
                "filesystem ",
                name.as_str(),
                " is not supported",
            ),
            ServiceError::AnalysisNotFound(id) => numbered(
                "analysis AnalysisId(",
                id.0,
                ") was not found",
            ),
            ServiceError::PlanNotFound(id) => numbered("plan PlanId(", id.0, ") was not found"),
            ServiceError::ExecutionUnavailable =>
                "defragmentation execution is unavailable for this plan".to_owned(),
            ServiceError::UnmountUnavailable(reason) => {
                let mut message: String = "automatic unmount is unavailable: ".to_owned();
                text::push_text(&mut message, reason.as_str());
                message
            },
            ServiceError::UnsupportedOptimizationMode { filesystem, mode } => {
                let mut message: String = mode_name(*mode);
                text::push_text(&mut message, " optimization is not supported for ");
                text::push_text(&mut message, filesystem.as_str());
                message
            },
            ServiceError::UnsafeFilesystem(reason) => {
                let mut message: String = "unsafe or inconsistent filesystem: ".to_owned();
                text::push_text(&mut message, reason.as_str());
                message
            },
            ServiceError::Cancelled => "job was cancelled".to_owned(),
            ServiceError::Poisoned => "service state was poisoned".to_owned(),
        }
    }
}

/// What a fallible request gives, over views.
pub open spec fn outcome<T: View>(result: Result<T, ServiceError>) -> Result<T::V, ErrorView> {
    match result {
        Ok(value) => Ok(value@),
        Err(error) => Err(error@),
    }
}

/// An I/O failure that the service itself reports, as a [`ServiceError`].
pub open spec fn io_failure(kind: IoKind, message: Seq<char>) -> ErrorView {
    ErrorView::Io(OsErrorView { kind, code: None, message })
}

/// Reports an I/O failure of the service's own.
pub fn io_error(kind: IoKind, message: &str) -> (error: ServiceError)
    ensures
        error@ == io_failure(kind, message@),
{
    ServiceError::Io(OsError::new(kind, message))
}

/// Reports a filesystem whose structures do not add up.
pub fn unsafe_fs(message: String) -> (error: ServiceError)
    ensures
        error@ == ErrorView::UnsafeFilesystem(message@),
{
    ServiceError::UnsafeFilesystem(message)
}

/// What a failed operation of a job reports: the kind of the system's error,
/// and its text behind the name of the operation.
pub open spec fn operation_failure(operation: Seq<char>, error: OsErrorView) -> ErrorView {
    io_failure(error.kind, operation + ": "@ + error.message)
}

/// Reports a failed operation of a job.
pub fn operation_error(operation: &str, error: &OsError) -> (failure: ServiceError)
    ensures
        failure@ == operation_failure(operation@, error@),
{
    let mut message: String = operation.to_owned();
    text::push_text(&mut message, ": ");
    text::push_text(&mut message, error.message.as_str());
    ServiceError::Io(OsError { kind: error.kind, code: None, message })
}

} // verus!
