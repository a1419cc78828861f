use file_unlocker::file_actions::resolved_for_check;
use file_unlocker::file_actions::confirm_delete;
use file_unlocker::file_actions::{
    check_delete, delete_error, is_protected_location, rejoin, DeleteMode, PathFacts,
};

fn facts(is_absolute: bool, exists: bool) -> PathFacts {
    PathFacts { is_absolute, exists }
}

fn delete_file(path: &str, f: PathFacts) -> Result<(), String> {
    check_delete(DeleteMode::Now, path, &f, path, &Vec::new())
}

fn delete_on_reboot(path: &str, f: PathFacts) -> Result<(), String> {
    check_delete(DeleteMode::OnReboot, path, &f, path, &Vec::new())
}

#[test]
fn rejects_empty_path() {
    assert!(delete_file("", facts(false, false)).is_err());
    assert!(delete_on_reboot("   ", facts(false, false)).is_err());
}

#[test]
fn rejects_relative_path() {
    assert!(delete_file("foo.txt", facts(false, false)).is_err());
    assert!(delete_on_reboot("foo\\bar.txt", facts(false, false)).is_err());
}

#[test]
fn rejects_protected_locations() {
    assert!(delete_file("C:\\Windows\\System32\\kernel32.dll", facts(true, true)).is_err());
    assert!(delete_on_reboot("c:\\Program Files\\x\\y.dll", facts(true, false)).is_err());
    assert!(delete_on_reboot("C:/Windows/System32/x.dll", facts(true, false)).is_err());
    assert!(delete_on_reboot("\\\\?\\C:\\Windows\\x.dll", facts(true, false)).is_err());
    let err = delete_file("C:\\Windows\\explorer.exe", facts(true, true)).unwrap_err();
    assert!(err.contains("受保护"), "unexpected: {err}");
}

#[test]
fn allows_user_files() {
    let err = delete_file("C:\\Users\\NonExistent\\a.txt", facts(true, false)).unwrap_err();
    assert!(err.contains("不存在"), "unexpected: {err}");
    assert!(!err.contains("受保护"));
}

#[test]
fn protection_uses_environment_folders() {
    let env = vec!["D:\\Windows\\".to_string(), "   ".to_string()];
    assert!(is_protected_location("d:\\windows\\system32\\x.dll", &env));
    assert!(is_protected_location("D:\\WINDOWS", &env));
    assert!(!is_protected_location("D:\\Windows2\\x.dll", &env));
    assert!(!is_protected_location("C:\\Windowsx\\y", &Vec::new()));
    assert!(is_protected_location("\\\\.\\C:\\Program Files (x86)\\a", &Vec::new()));
}

#[test]
fn path_check_messages() {
    assert_eq!(delete_file("  ", facts(true, true)).unwrap_err(), "文件路径为空");
    assert_eq!(
        delete_file("foo.txt", facts(false, true)).unwrap_err(),
        "需要绝对路径，收到：foo.txt"
    );
    assert_eq!(
        delete_file("C:\\x\\a.txt", facts(true, false)).unwrap_err(),
        "文件不存在：C:\\x\\a.txt"
    );
    assert!(delete_on_reboot("C:\\x\\a.txt", facts(true, false)).is_ok());
    assert_eq!(
        delete_on_reboot("C:\\Windows\\a.txt", facts(true, false)).unwrap_err(),
        "拒绝计划删除：C:\\Windows\\a.txt 位于系统受保护目录"
    );
}

#[test]
fn delete_error_messages() {
    assert_eq!(
        delete_error(DeleteMode::Now, "文件正被另一进程使用"),
        "删除失败：文件仍被占用；可先结束全部占用进程，或改用\"重启后删除\""
    );
    assert_eq!(delete_error(DeleteMode::Now, "拒绝访问"), "删除失败：拒绝访问");
    assert_eq!(
        delete_error(DeleteMode::OnReboot, "拒绝访问"),
        "计划重启删除失败：拒绝访问"
    );
}

#[test]
fn rejoin_resolved_ancestor() {
    assert_eq!(rejoin("C:\\Program Files", "a/b.dll"), "C:\\Program Files\\a\\b.dll");
    assert_eq!(rejoin("C:\\Data", ""), "C:\\Data");
}

#[test]
fn deletion_needs_confirmation() {
    let e = confirm_delete(false).unwrap_err();
    assert_eq!((e.code, e.message.as_str()), ("e_path_invalid", "缺少确认参数"));
    assert!(confirm_delete(true).is_ok());
}

#[test]
fn resolved_form_prefers_own_then_nearest_ancestor() {
    let own = Some(r"C:\Program Files\x.txt".to_string());
    assert_eq!(resolved_for_check(&own, &vec![], r"C:\PROGRA~1\x.txt"), r"C:\Program Files\x.txt");
    let ancestors = vec![
        (None, "x.txt".to_string()),
        (Some(r"C:\Program Files".to_string()), "new/x.txt".to_string()),
        (Some(r"C:\".to_string()), "PROGRA~1/new/x.txt".to_string()),
    ];
    assert_eq!(resolved_for_check(&None, &ancestors, ""), r"C:\Program Files\new\x.txt");
    assert_eq!(
        resolved_for_check(&None, &vec![(None, "x".to_string())], r"C:\Program Files\x"),
        r"C:\Program Files\x"
    );
}
