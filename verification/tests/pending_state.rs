use file_unlocker::state::{
    extract_path_from_args, set_pending_file, take_pending_file_impl, PendingFile,
};

#[test]
fn pending_file_take_is_one_shot() {
    let mut state = PendingFile(None);
    set_pending_file(&mut state, "C:\\first.txt".into());
    assert_eq!(
        take_pending_file_impl(&mut state).as_deref(),
        Some("C:\\first.txt")
    );
    assert_eq!(take_pending_file_impl(&mut state), None);
}

#[test]
fn pending_file_keeps_latest_path() {
    let mut state = PendingFile(None);
    set_pending_file(&mut state, "C:\\first.txt".into());
    set_pending_file(&mut state, "C:\\second.txt".into());
    assert_eq!(
        take_pending_file_impl(&mut state).as_deref(),
        Some("C:\\second.txt")
    );
}

#[test]
fn first_existing_argument_after_program() {
    let args: Vec<String> = vec!["app.exe".into(), "--flag".into(), "C:\\a.txt".into(), "C:\\b.txt".into()];
    assert_eq!(
        extract_path_from_args(&args, &[true, false, true, true]),
        Some("C:\\a.txt".to_string())
    );
    assert_eq!(extract_path_from_args(&args, &[true, false, false, false]), None);
    assert_eq!(extract_path_from_args(&args[..1], &[true]), None);
}
