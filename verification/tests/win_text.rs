use file_unlocker::winutil::{
    description_from_value, description_key, normalize_path_string, to_wide, utf16_string,
    win32_code, win32_err,
};

#[test]
fn to_wide_appends_nul_terminator() {
    let w = to_wide("ab");
    assert_eq!(w, vec![b'a' as u16, b'b' as u16, 0]);
}

#[test]
fn to_wide_keeps_non_ascii() {
    let w = to_wide("中文");
    assert_eq!(w, vec!['中' as u16, '文' as u16, 0]);
}

#[test]
fn utf16_string_stops_at_nul() {
    assert_eq!(utf16_string(&[b'a' as u16, 0, b'b' as u16]), "a");
}

#[test]
fn utf16_string_handles_missing_nul() {
    assert_eq!(utf16_string(&[b'x' as u16]), "x");
}

#[test]
fn win32_code_maps_access_denied() {
    let code = win32_code(0x8007_0005u32 as i32);
    assert_eq!(code, 5);
    let msg = win32_err(code, "Access is denied.");
    assert!(msg.contains("拒绝访问"), "unexpected: {msg}");
}

#[test]
fn win32_err_falls_back_to_system_text() {
    assert_eq!(win32_err(1234, "Odd"), "Odd (错误码 1234)");
    assert_eq!(win32_err(32, "x"), "文件正被另一进程使用");
}

#[test]
fn to_wide_encodes_supplementary_characters() {
    assert_eq!(to_wide("😀"), vec![0xD83D, 0xDE00, 0]);
}

#[test]
fn description_lookup_key_and_value() {
    assert_eq!(
        description_key(0x0409, 0x04b0),
        "\\StringFileInfo\\040904b0\\FileDescription"
    );
    assert_eq!(description_from_value(&[b'W' as u16, b'o' as u16, 0, b'x' as u16]), Some("Wo".to_string()));
    assert_eq!(description_from_value(&[0, b'x' as u16]), None);
}

#[test]
fn exe_paths_compare_after_normalisation() {
    assert_eq!(normalize_path_string(r"\\?\C:\Program Files\.\App\..\App\a.EXE"), r"c:\program files\app\a.exe");
    assert_eq!(normalize_path_string("C:/Tools/x.exe"), r"c:\tools\x.exe");
}
