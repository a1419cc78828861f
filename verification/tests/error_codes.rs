use file_unlocker::error::{AppError, ErrorCode};

#[test]
fn error_codes_are_stable_strings() {
    assert_eq!(ErrorCode::EPermDenied.as_str(), "e_perm_denied");
    assert_eq!(ErrorCode::EPathInvalid.as_str(), "e_path_invalid");
    assert_eq!(ErrorCode::EFileBusy.as_str(), "e_file_busy");
    assert_eq!(ErrorCode::EUnknown.as_str(), "e_unknown");
}

#[test]
fn app_error_serializes_code_and_message() {
    // The `{ code, message }` payload carries exactly these two fields.
    let e = AppError::new(ErrorCode::EPathNotFound, "文件不存在：C:\\a.txt");
    assert_eq!(e.code, "e_path_not_found");
    assert_eq!(e.message, "文件不存在：C:\\a.txt");
}

#[test]
fn bare_string_maps_to_unknown_code() {
    let e: AppError = "旧式错误".into();
    assert_eq!(e.code, "e_unknown");
    assert_eq!(e.message, "旧式错误");
    let e2: AppError = String::from("旧式错误2").into();
    assert_eq!(e2.code, "e_unknown");
}

#[test]
fn display_includes_code_for_logs() {
    let e = AppError::new(ErrorCode::EProtected, "拒绝删除");
    assert_eq!(e.to_display_string(), "[e_protected] 拒绝删除");
}

#[test]
fn every_error_code_string() {
    assert_eq!(ErrorCode::EPathNotFound.as_str(), "e_path_not_found");
    assert_eq!(ErrorCode::EProtected.as_str(), "e_protected");
    assert_eq!(ErrorCode::EEngineFailure.as_str(), "e_engine_failure");
    assert_eq!(ErrorCode::EProcessIdentity.as_str(), "e_process_identity");
    assert_eq!(ErrorCode::EInternal.as_str(), "e_internal");
    assert_eq!(ErrorCode::EUpdateFailure.as_str(), "e_update_failure");
}

#[test]
fn codes_are_read_back_from_strings() {
    assert_eq!(ErrorCode::from_code("e_file_busy"), ErrorCode::EFileBusy);
    assert_eq!(ErrorCode::from_code("e_update_failure"), ErrorCode::EUpdateFailure);
    assert_eq!(ErrorCode::from_code("E_FILE_BUSY"), ErrorCode::EUnknown);
}
