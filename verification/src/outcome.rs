//! What Dropbox calls came back with, as this tool reads it, and the
//! decisions taken on it: write mode, conflicts, reports and what to copy.

use vstd::prelude::*;
use crate::retry::CallOutcome;

verus! {

/// How an upload treats a file that already exists at its path.
#[derive(Clone, Copy, Debug, PartialEq, Eq)]
pub enum WriteMode {
    /// Fail with a conflict (Dropbox's `add`).
    Add,
    /// Replace the existing file.
    Overwrite,
}

/// The write mode for the `-f` flag: overwrite when forced, else add.
pub fn write_mode(force: bool) -> (m: WriteMode)
    ensures
        m == (if force { WriteMode::Overwrite } else { WriteMode::Add }),
{
    if force {
        WriteMode::Overwrite
    } else {
        WriteMode::Add
    }
}

/// What is in the way of a write (Dropbox's `WriteConflictError`).
#[derive(Clone, Copy, Debug, PartialEq, Eq)]
pub enum ConflictKind {
    File,
    Folder,
    FileAncestor,
    Other,
}

/// Why a write to a path failed (Dropbox's `WriteError`), as far as it is read here.
#[derive(Clone, Copy, Debug, PartialEq, Eq)]
pub enum WriteProblem {
    /// Something is in the way.
    Conflict(ConflictKind),
    /// Any other reason.
    Other,
}

/// A failed Dropbox call, as far as it is read here.
#[derive(Clone, Copy, Debug, PartialEq, Eq)]
pub enum ApiFailure {
    /// Declined for rate limiting.
    RateLimited { retry_after_seconds: u32 },
    /// The endpoint could not write to the target path (its `Path` error).
    Path(WriteProblem),
    /// Any other failure.
    Other,
}

/// Whether a write failed because something is in the way.
pub fn is_conflict(p: &WriteProblem) -> (b: bool)
    ensures
        b == (*p is Conflict),
{
    match p {
        WriteProblem::Conflict(_) => true,
        WriteProblem::Other => false,
    }
}

/// Whether an upload (or the finish of an upload session) failed because
/// something already is at the path.
pub fn upload_conflict(f: &ApiFailure) -> (b: bool)
    ensures
        b == (*f matches ApiFailure::Path(WriteProblem::Conflict(_))),
{
    match f {
        ApiFailure::Path(p) => is_conflict(p),
        _ => false,
    }
}

/// Whether a folder creation failed only because a folder already is there.
pub fn mkdir_ok(p: &WriteProblem) -> (b: bool)
    ensures
        b == (*p == WriteProblem::Conflict(ConflictKind::Folder)),
{
    match p {
        WriteProblem::Conflict(ConflictKind::Folder) => true,
        _ => false,
    }
}

/// How an attempt ended, for the retry logic: rate limiting is told apart
/// from other failures.
pub fn call_outcome(r: &Result<(), ApiFailure>) -> (o: CallOutcome)
    ensures
        o == (match *r {
            Ok(()) => CallOutcome::Success,
            Err(ApiFailure::RateLimited { retry_after_seconds }) => CallOutcome::RateLimited {
                retry_after_seconds,
            },
            Err(_) => CallOutcome::Failure,
        }),
{
    match r {
        Ok(()) => CallOutcome::Success,
        Err(ApiFailure::RateLimited { retry_after_seconds }) => CallOutcome::RateLimited {
            retry_after_seconds: *retry_after_seconds,
        },
        Err(_) => CallOutcome::Failure,
    }
}

/// Whether creating a folder counts as an error: it does unless it
/// succeeded or a folder already was there.
pub fn folder_creation_failed(r: &Result<(), ApiFailure>) -> (failed: bool)
    ensures
        failed == !(*r is Ok || *r == Err::<(), ApiFailure>(
            ApiFailure::Path(WriteProblem::Conflict(ConflictKind::Folder)),
        )),
{
    match r {
        Ok(()) => false,
        Err(ApiFailure::Path(p)) => !mkdir_ok(p),
        Err(_) => true,
    }
}

/// How the upload of one file ended, for the user.
#[derive(Clone, Copy, Debug, PartialEq, Eq)]
pub enum UploadReport {
    /// The file was uploaded.
    Uploaded,
    /// A file already is at the path; it was skipped (`-f` overwrites).
    AlreadyExists,
    /// The upload failed.
    Failed,
}

/// The report of an upload: a conflict means the file already exists.
pub fn upload_report(r: &Result<(), ApiFailure>) -> (rep: UploadReport)
    ensures
        rep == (match *r {
            Ok(()) => UploadReport::Uploaded,
            Err(f) => if f matches ApiFailure::Path(WriteProblem::Conflict(_)) {
                UploadReport::AlreadyExists
            } else {
                UploadReport::Failed
            },
        }),
{
    match r {
        Ok(()) => UploadReport::Uploaded,
        Err(f) => if upload_conflict(f) {
            UploadReport::AlreadyExists
        } else {
            UploadReport::Failed
        },
    }
}

impl UploadReport {
    /// Whether the report counts as an error for the exit status: everything
    /// but a finished upload does.
    pub fn is_error(&self) -> (b: bool)
        ensures
            b == !(*self is Uploaded),
    {
        match self {
            UploadReport::Uploaded => false,
            _ => true,
        }
    }
}

/// What the local source is, from its metadata.
#[derive(Clone, Copy, Debug, PartialEq, Eq)]
pub enum SourceKind {
    /// Its metadata could not be read.
    Unreadable,
    Directory,
    File,
    /// Neither a file nor a directory.
    Other,
}

/// What copying a source amounts to.
#[derive(Clone, Copy, Debug, PartialEq, Eq)]
pub enum CopyPlan {
    /// Report that the source cannot be read; an error.
    CannotReadSource,
    /// Report that a directory needs `-r`; an error.
    DirectoryNeedsRecursive,
    /// Copy the directory tree.
    CopyDirectory,
    /// Upload the one file.
    UploadFile,
    /// Report that the source is neither file nor directory; an error.
    NotFileOrDirectory,
}

/// What to do with the source: a directory is copied only with `-r`.
pub fn plan_copy(kind: SourceKind, recursive: bool) -> (p: CopyPlan)
    ensures
        p == (match kind {
            SourceKind::Unreadable => CopyPlan::CannotReadSource,
            SourceKind::Directory => if recursive {
                CopyPlan::CopyDirectory
            } else {
                CopyPlan::DirectoryNeedsRecursive
            },
            SourceKind::File => CopyPlan::UploadFile,
            SourceKind::Other => CopyPlan::NotFileOrDirectory,
        }),
{
    match kind {
        SourceKind::Unreadable => CopyPlan::CannotReadSource,
        SourceKind::Directory => if recursive {
            CopyPlan::CopyDirectory
        } else {
            CopyPlan::DirectoryNeedsRecursive
        },
        SourceKind::File => CopyPlan::UploadFile,
        SourceKind::Other => CopyPlan::NotFileOrDirectory,
    }
}

} // verus!
