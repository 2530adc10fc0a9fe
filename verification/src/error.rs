//! Error types that callers need to distinguish, rather than merely display.

use vstd::prelude::*;
use crate::text::{cat2, cat3, cat4, cat5, decimal, decimal_text, lossy_text, text_lossy};

verus! {

/// Returned when the user cancels a running operation.
///
/// This is an error so that cancellation unwinds through the same path as a
/// failure (cleaning up temporary files on the way out), but the UI reports it
/// as a cancellation rather than as a problem.
#[derive(Debug, Clone, Copy, PartialEq, Eq, Structural)]
pub struct Cancelled;

pub open spec fn cancelled_text() -> Seq<char> {
    "operation cancelled"@
}

impl Cancelled {
    pub fn message(&self) -> (out: String)
        ensures
            out@ == cancelled_text(),
    {
        "operation cancelled".to_owned()
    }
}

/// Reasons FlatBak cannot talk to Flatpak at all.
#[derive(Debug)]
pub enum FlatpakUnavailable {
    NotFound,
    Failed(String),
}

pub enum FlatpakUnavailableView {
    NotFound,
    Failed(Seq<char>),
}

impl View for FlatpakUnavailable {
    type V = FlatpakUnavailableView;

    open spec fn view(&self) -> FlatpakUnavailableView {
        match self {
            FlatpakUnavailable::NotFound => FlatpakUnavailableView::NotFound,
            FlatpakUnavailable::Failed(reason) => FlatpakUnavailableView::Failed(reason@),
        }
    }
}

pub open spec fn unavailable_text(error: FlatpakUnavailableView) -> Seq<char> {
    match error {
        FlatpakUnavailableView::NotFound =>
            "The flatpak command was not found. Install Flatpak to use FlatBak."@,
        FlatpakUnavailableView::Failed(reason) => "The flatpak command failed to run: "@ + reason,
    }
}

impl FlatpakUnavailable {
    /// What to tell the user.
    pub fn message(&self) -> (out: String)
        ensures
            out@ == unavailable_text(self@),
    {
        match self {
            FlatpakUnavailable::NotFound =>
                "The flatpak command was not found. Install Flatpak to use FlatBak.".to_owned(),
            FlatpakUnavailable::Failed(reason) => cat2(
                "The flatpak command failed to run: ",
                reason,
            ),
        }
    }
}

/// Reasons an archive cannot be opened or trusted.
#[derive(Debug)]
pub enum ArchiveError {
    /// The file at this path is something else.
    NotAFlatbakArchive(Vec<u8>),
    UnsupportedVersion { found: u32, supported: u32 },
    Corrupt(String),
    InvalidManifest(String),
    Truncated,
    ChecksumMismatch,
}

pub enum ArchiveErrorView {
    NotAFlatbakArchive(Seq<u8>),
    UnsupportedVersion { found: u32, supported: u32 },
    Corrupt(Seq<char>),
    InvalidManifest(Seq<char>),
    Truncated,
    ChecksumMismatch,
}

impl View for ArchiveError {
    type V = ArchiveErrorView;

    open spec fn view(&self) -> ArchiveErrorView {
        match self {
            ArchiveError::NotAFlatbakArchive(path) => ArchiveErrorView::NotAFlatbakArchive(path@),
            ArchiveError::UnsupportedVersion { found, supported } =>
                ArchiveErrorView::UnsupportedVersion { found: *found, supported: *supported },
            ArchiveError::Corrupt(reason) => ArchiveErrorView::Corrupt(reason@),
            ArchiveError::InvalidManifest(reason) => ArchiveErrorView::InvalidManifest(reason@),
            ArchiveError::Truncated => ArchiveErrorView::Truncated,
            ArchiveError::ChecksumMismatch => ArchiveErrorView::ChecksumMismatch,
        }
    }
}

pub open spec fn archive_error_text(error: ArchiveErrorView) -> Seq<char> {
    match error {
        ArchiveErrorView::NotAFlatbakArchive(path) => lossy_text(path)
            + " is not a FlatBak backup."@,
        ArchiveErrorView::UnsupportedVersion { found, supported } =>
            "This backup was created by a newer version of FlatBak (format "@ + decimal(
                found as nat,
            ) + ", this version supports up to "@ + decimal(supported as nat)
                + "). Please update FlatBak."@,
        ArchiveErrorView::Corrupt(reason) => "The backup file is damaged: "@ + reason,
        ArchiveErrorView::InvalidManifest(reason) => "The backup manifest is invalid: "@ + reason,
        ArchiveErrorView::Truncated =>
            "The backup file is truncated. It may have been copied or downloaded incompletely."@,
        ArchiveErrorView::ChecksumMismatch =>
            "The backup contents do not match its checksum. The file is damaged and cannot be restored safely."@,
    }
}

impl ArchiveError {
    /// What to tell the user.
    pub fn message(&self) -> (out: String)
        ensures
            out@ == archive_error_text(self@),
    {
        match self {
            ArchiveError::NotAFlatbakArchive(path) => cat2(
                &text_lossy(path),
                " is not a FlatBak backup.",
            ),
            ArchiveError::UnsupportedVersion { found, supported } => cat5(
                "This backup was created by a newer version of FlatBak (format ",
                &decimal_text(*found as u64),
                ", this version supports up to ",
                &decimal_text(*supported as u64),
                "). Please update FlatBak.",
            ),
            ArchiveError::Corrupt(reason) => cat2("The backup file is damaged: ", reason),
            ArchiveError::InvalidManifest(reason) => cat2(
                "The backup manifest is invalid: ",
                reason,
            ),
            ArchiveError::Truncated =>
                "The backup file is truncated. It may have been copied or downloaded incompletely.".to_owned(),
            ArchiveError::ChecksumMismatch =>
                "The backup contents do not match its checksum. The file is damaged and cannot be restored safely.".to_owned(),
        }
    }
}

/// A per-application problem that does not abort the whole operation.
#[derive(Debug, PartialEq, Eq)]
#[allow(inconsistent_fields)]
pub enum Issue {
    /// Application data was requested but `~/.var/app/<id>` does not exist.
    NoDataDirectory { app: String },
    /// The remote an application came from is not configured on this system.
    MissingRemote { app: String, remote: String },
    /// Existing application data was left untouched at the user's request.
    DataSkipped { app: String },
    /// Installing an application failed.
    InstallFailed { app: String, message: String },
    /// Restoring an application's data failed.
    DataRestoreFailed { app: String, message: String },
    /// A file could not be read while backing up.
    ReadFailed { path: Vec<u8>, message: String },
    /// An archive entry was rejected for safety reasons.
    UnsafeEntry { path: String, reason: String },
    /// Anything else worth telling the user about.
    Other { message: String },
}

#[allow(inconsistent_fields)]
pub enum IssueView {
    NoDataDirectory { app: Seq<char> },
    MissingRemote { app: Seq<char>, remote: Seq<char> },
    DataSkipped { app: Seq<char> },
    InstallFailed { app: Seq<char>, message: Seq<char> },
    DataRestoreFailed { app: Seq<char>, message: Seq<char> },
    ReadFailed { path: Seq<u8>, message: Seq<char> },
    UnsafeEntry { path: Seq<char>, reason: Seq<char> },
    Other { message: Seq<char> },
}

impl View for Issue {
    type V = IssueView;

    open spec fn view(&self) -> IssueView {
        match self {
            Issue::NoDataDirectory { app } => IssueView::NoDataDirectory { app: app@ },
            Issue::MissingRemote { app, remote } => IssueView::MissingRemote {
                app: app@,
                remote: remote@,
            },
            Issue::DataSkipped { app } => IssueView::DataSkipped { app: app@ },
            Issue::InstallFailed { app, message } => IssueView::InstallFailed {
                app: app@,
                message: message@,
            },
            Issue::DataRestoreFailed { app, message } => IssueView::DataRestoreFailed {
                app: app@,
                message: message@,
            },
            Issue::ReadFailed { path, message } => IssueView::ReadFailed {
                path: path@,
                message: message@,
            },
            Issue::UnsafeEntry { path, reason } => IssueView::UnsafeEntry {
                path: path@,
                reason: reason@,
            },
            Issue::Other { message } => IssueView::Other { message: message@ },
        }
    }
}

pub open spec fn issue_text(issue: IssueView) -> Seq<char> {
    match issue {
        IssueView::NoDataDirectory { app } => app
            + ": no application data found, nothing to back up"@,
        IssueView::MissingRemote { app, remote } => app + ": remote \u{201c}"@ + remote
            + "\u{201d} is not configured"@,
        IssueView::DataSkipped { app } => app + ": kept existing data"@,
        IssueView::InstallFailed { app, message } => app + ": install failed \u{2014} "@ + message,
        IssueView::DataRestoreFailed { app, message } => app
            + ": data could not be restored \u{2014} "@ + message,
        IssueView::ReadFailed { path, message } => lossy_text(path)
            + ": could not be read \u{2014} "@ + message,
        IssueView::UnsafeEntry { path, reason } => "skipped unsafe archive entry "@ + path
            + " \u{2014} "@ + reason,
        IssueView::Other { message } => message,
    }
}

impl Issue {
    /// The issue in one line.
    pub fn message(&self) -> (out: String)
        ensures
            out@ == issue_text(self@),
    {
        match self {
            Issue::NoDataDirectory { app } => cat2(
                app,
                ": no application data found, nothing to back up",
            ),
            Issue::MissingRemote { app, remote } => cat4(
                app,
                ": remote \u{201c}",
                remote,
                "\u{201d} is not configured",
            ),
            Issue::DataSkipped { app } => cat2(app, ": kept existing data"),
            Issue::InstallFailed { app, message } => cat3(
                app,
                ": install failed \u{2014} ",
                message,
            ),
            Issue::DataRestoreFailed { app, message } => cat3(
                app,
                ": data could not be restored \u{2014} ",
                message,
            ),
            Issue::ReadFailed { path, message } => cat3(
                &text_lossy(path),
                ": could not be read \u{2014} ",
                message,
            ),
            Issue::UnsafeEntry { path, reason } => cat4(
                "skipped unsafe archive entry ",
                path,
                " \u{2014} ",
                reason,
            ),
            Issue::Other { message } => message.clone(),
        }
    }
}

impl Clone for Issue {
    fn clone(&self) -> (out: Self)
        ensures
            out@ == self@,
    {
        match self {
            Issue::NoDataDirectory { app } => Issue::NoDataDirectory { app: app.clone() },
            Issue::MissingRemote { app, remote } => Issue::MissingRemote {
                app: app.clone(),
                remote: remote.clone(),
            },
            Issue::DataSkipped { app } => Issue::DataSkipped { app: app.clone() },
            Issue::InstallFailed { app, message } => Issue::InstallFailed {
                app: app.clone(),
                message: message.clone(),
            },
            Issue::DataRestoreFailed { app, message } => Issue::DataRestoreFailed {
                app: app.clone(),
                message: message.clone(),
            },
            Issue::ReadFailed { path, message } => Issue::ReadFailed {
                path: crate::path::bytes_of(path),
                message: message.clone(),
            },
            Issue::UnsafeEntry { path, reason } => Issue::UnsafeEntry {
                path: path.clone(),
                reason: reason.clone(),
            },
            Issue::Other { message } => Issue::Other { message: message.clone() },
        }
    }
}

/// Why an operation stopped.
#[derive(Debug)]
pub enum Failure {
    Cancelled(Cancelled),
    Archive(ArchiveError),
    Unavailable(FlatpakUnavailable),
    /// Anything that only needs to be shown.
    Message(String),
    /// Another failure, and what was being done when it occurred.
    During { context: String, cause: Box<Failure> },
}

pub enum FailureView {
    Cancelled,
    Archive(ArchiveErrorView),
    Unavailable(FlatpakUnavailableView),
    Message(Seq<char>),
    During { context: Seq<char>, cause: Box<FailureView> },
}

pub open spec fn failure_view(failure: Failure) -> FailureView
    decreases failure,
{
    match failure {
        Failure::Cancelled(_) => FailureView::Cancelled,
        Failure::Archive(error) => FailureView::Archive(error@),
        Failure::Unavailable(error) => FailureView::Unavailable(error@),
        Failure::Message(message) => FailureView::Message(message@),
        Failure::During { context, cause } => FailureView::During {
            context: context@,
            cause: Box::new(failure_view(*cause)),
        },
    }
}

impl View for Failure {
    type V = FailureView;

    open spec fn view(&self) -> FailureView {
        failure_view(*self)
    }
}

/// A failure in one line, without what lies behind it.
pub open spec fn failure_text(failure: FailureView) -> Seq<char> {
    match failure {
        FailureView::Cancelled => cancelled_text(),
        FailureView::Archive(error) => archive_error_text(error),
        FailureView::Unavailable(error) => unavailable_text(error),
        FailureView::Message(message) => message,
        FailureView::During { context, cause } => context,
    }
}

/// A failure and everything that lies behind it.
pub open spec fn failure_chain(failure: FailureView) -> Seq<char>
    decreases failure,
{
    match failure {
        FailureView::During { context, cause } => context + ": "@ + failure_chain(*cause),
        _ => failure_text(failure),
    }
}

/// Whether a cancellation is what lies behind everything else.
pub open spec fn from_cancellation(failure: FailureView) -> bool
    decreases failure,
{
    match failure {
        FailureView::Cancelled => true,
        FailureView::During { context, cause } => from_cancellation(*cause),
        _ => false,
    }
}

impl Failure {
    /// The failure in one line, without what lies behind it.
    pub fn message(&self) -> (out: String)
        ensures
            out@ == failure_text(self@),
    {
        match self {
            Failure::Cancelled(cancelled) => cancelled.message(),
            Failure::Archive(error) => error.message(),
            Failure::Unavailable(error) => error.message(),
            Failure::Message(message) => message.clone(),
            Failure::During { context, cause: _ } => context.clone(),
        }
    }

    /// The failure and everything that lies behind it.
    pub fn chain(&self) -> (out: String)
        ensures
            out@ == failure_chain(self@),
        decreases self,
    {
        match self {
            Failure::During { context, cause } => cat3(context, ": ", &cause.chain()),
            _ => self.message(),
        }
    }

    /// This failure, which occurred during what `context` says.
    pub fn during(self, context: &str) -> (out: Failure)
        ensures
            out@ == (FailureView::During { context: context@, cause: Box::new(self@) }),
    {
        Failure::During { context: context.to_owned(), cause: Box::new(self) }
    }
}

/// True if `error` is a cancellation rather than a genuine failure.
pub fn is_cancellation(error: &Failure) -> (yes: bool)
    ensures
        yes == from_cancellation(error@),
    decreases error,
{
    match error {
        Failure::Cancelled(_) => true,
        Failure::During { context: _, cause } => is_cancellation(cause),
        _ => false,
    }
}

// --------------------------------------------------------------------- laws

/// A failure comes from a cancellation if that is at its root, whatever was going on
/// meanwhile, and no other failure does.
pub proof fn lemma_cancellations_are_told_apart(
    failure: FailureView,
    context: Seq<char>,
    cause: FailureView,
)
    ensures
        from_cancellation(FailureView::Cancelled),
        from_cancellation(FailureView::During { context, cause: Box::new(cause) })
            == from_cancellation(cause),
        failure is Archive || failure is Unavailable || failure is Message ==> !from_cancellation(
            failure,
        ),
{
}

/// A failure is told by what was going on, and its whole story by that and by what led
/// to it.
pub proof fn lemma_failures_are_told(context: Seq<char>, cause: FailureView, message: Seq<char>)
    ensures
        failure_text(FailureView::During { context, cause: Box::new(cause) }) == context,
        failure_chain(FailureView::During { context, cause: Box::new(cause) }) == context + ": "@
            + failure_chain(cause),
        failure_text(FailureView::Message(message)) == message,
        failure_chain(FailureView::Message(message)) == message,
        failure_chain(FailureView::Cancelled) == failure_text(FailureView::Cancelled),
{
}

/// An issue names the application it is about first, and the reason last.
pub proof fn lemma_issues_name_application_and_reason(
    app: Seq<char>,
    message: Seq<char>,
    path: Seq<u8>,
)
    ensures
        app.is_prefix_of(issue_text(IssueView::NoDataDirectory { app })),
        app.is_prefix_of(issue_text(IssueView::MissingRemote { app, remote: message })),
        app.is_prefix_of(issue_text(IssueView::DataSkipped { app })),
        app.is_prefix_of(issue_text(IssueView::InstallFailed { app, message })),
        app.is_prefix_of(issue_text(IssueView::DataRestoreFailed { app, message })),
        lossy_text(path).is_prefix_of(issue_text(IssueView::ReadFailed { path, message })),
        message.is_suffix_of(issue_text(IssueView::InstallFailed { app, message })),
        message.is_suffix_of(issue_text(IssueView::DataRestoreFailed { app, message })),
        message.is_suffix_of(issue_text(IssueView::ReadFailed { path, message })),
        message.is_suffix_of(issue_text(IssueView::UnsafeEntry { path: app, reason: message })),
        issue_text(IssueView::Other { message }) == message,
{
    lemma_text_around(app, ": no application data found, nothing to back up"@, Seq::empty());
    assert(issue_text(IssueView::NoDataDirectory { app }) =~= app
        + ": no application data found, nothing to back up"@ + Seq::<char>::empty());
    let missing = ": remote \u{201c}"@ + message + "\u{201d} is not configured"@;
    lemma_text_around(app, missing, Seq::empty());
    assert(issue_text(IssueView::MissingRemote { app, remote: message }) =~= app + missing + Seq::<
        char,
    >::empty());
    lemma_text_around(app, ": kept existing data"@, Seq::empty());
    assert(issue_text(IssueView::DataSkipped { app }) =~= app + ": kept existing data"@ + Seq::<
        char,
    >::empty());
    lemma_text_around(app, ": install failed \u{2014} "@, message);
    lemma_text_around(app, ": data could not be restored \u{2014} "@, message);
    lemma_text_around(lossy_text(path), ": could not be read \u{2014} "@, message);
    lemma_text_around("skipped unsafe archive entry "@ + app, " \u{2014} "@, message);
}

proof fn lemma_text_around(start: Seq<char>, middle: Seq<char>, end: Seq<char>)
    ensures
        start.is_prefix_of(start + middle + end),
        end.is_suffix_of(start + middle + end),
{
    let whole = start + middle + end;
    assert(whole.subrange(0, start.len() as int) =~= start);
    assert(whole.subrange((whole.len() - end.len()) as int, whole.len() as int) =~= end);
}

} // verus!
