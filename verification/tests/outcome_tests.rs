use dropbox_cp::outcome::{
    call_outcome, folder_creation_failed, is_conflict, mkdir_ok, plan_copy, upload_conflict,
    upload_report, write_mode, ApiFailure, ConflictKind, CopyPlan, SourceKind, UploadReport,
    WriteMode, WriteProblem,
};
use dropbox_cp::retry::CallOutcome;

#[test]
fn write_mode_follows_force() {
    assert_eq!(write_mode(true), WriteMode::Overwrite);
    assert_eq!(write_mode(false), WriteMode::Add);
}

#[test]
fn conflicts() {
    assert!(is_conflict(&WriteProblem::Conflict(ConflictKind::File)));
    assert!(!is_conflict(&WriteProblem::Other));
    assert!(upload_conflict(&ApiFailure::Path(WriteProblem::Conflict(ConflictKind::FileAncestor))));
    assert!(!upload_conflict(&ApiFailure::Path(WriteProblem::Other)));
    assert!(!upload_conflict(&ApiFailure::RateLimited { retry_after_seconds: 3 }));
    assert!(!upload_conflict(&ApiFailure::Other));
}

#[test]
fn existing_folder_is_fine() {
    assert!(mkdir_ok(&WriteProblem::Conflict(ConflictKind::Folder)));
    assert!(!mkdir_ok(&WriteProblem::Conflict(ConflictKind::File)));
    assert!(!folder_creation_failed(&Ok(())));
    assert!(!folder_creation_failed(&Err(ApiFailure::Path(WriteProblem::Conflict(ConflictKind::Folder)))));
    assert!(folder_creation_failed(&Err(ApiFailure::Path(WriteProblem::Conflict(ConflictKind::File)))));
    assert!(folder_creation_failed(&Err(ApiFailure::Other)));
}

#[test]
fn outcomes_for_retrying() {
    assert_eq!(call_outcome(&Ok(())), CallOutcome::Success);
    assert_eq!(
        call_outcome(&Err(ApiFailure::RateLimited { retry_after_seconds: 9 })),
        CallOutcome::RateLimited { retry_after_seconds: 9 }
    );
    assert_eq!(call_outcome(&Err(ApiFailure::Path(WriteProblem::Other))), CallOutcome::Failure);
}

#[test]
fn upload_reports() {
    assert_eq!(upload_report(&Ok(())), UploadReport::Uploaded);
    assert_eq!(
        upload_report(&Err(ApiFailure::Path(WriteProblem::Conflict(ConflictKind::File)))),
        UploadReport::AlreadyExists
    );
    assert_eq!(upload_report(&Err(ApiFailure::Other)), UploadReport::Failed);
    assert!(!UploadReport::Uploaded.is_error());
    assert!(UploadReport::AlreadyExists.is_error());
    assert!(UploadReport::Failed.is_error());
}

#[test]
fn copy_plans() {
    assert_eq!(plan_copy(SourceKind::Directory, false), CopyPlan::DirectoryNeedsRecursive);
    assert_eq!(plan_copy(SourceKind::Directory, true), CopyPlan::CopyDirectory);
    assert_eq!(plan_copy(SourceKind::File, false), CopyPlan::UploadFile);
    assert_eq!(plan_copy(SourceKind::File, true), CopyPlan::UploadFile);
    assert_eq!(plan_copy(SourceKind::Other, true), CopyPlan::NotFileOrDirectory);
    assert_eq!(plan_copy(SourceKind::Unreadable, true), CopyPlan::CannotReadSource);
}
