use file_unlocker::updater::{
    check_download, check_for_update, check_installer, check_manifest, hex_string, is_newer,
    parse_version, validate_asset_name, UpdateAsset, UpdateManifest,
};

#[test]
fn version_compare() {
    assert!(is_newer("0.3.0", "0.2.1"));
    assert!(is_newer("0.10.0", "0.9.9"));
    assert!(is_newer("1.0.0", "0.99.99"));
    assert!(!is_newer("0.2.1", "0.2.1"));
    assert!(!is_newer("0.2.0", "0.2.1"));
    assert!(!is_newer("0.2.1", "0.3.0"));
    assert!(is_newer("0.3.1", "0.3"));
    assert!(!is_newer("1.0", "1.0.0"));
    assert!(!is_newer("0.3", "0.3.1"));
}

#[test]
fn version_parse_tolerates_prefix() {
    assert!(is_newer("v0.3.0", "0.2.1"));
    assert!(is_newer("0.3.0", "v0.2.1"));
}

#[test]
fn empty_current_accepts_any() {
    assert!(is_newer("0.1.0", ""));
    assert!(!is_newer("", "0.1.0"));
}

#[test]
fn rejects_untrusted_launch_path() {
    assert!(check_installer("evil.exe", true).is_err());
    assert!(check_installer("hack.cmd", true).is_err());
}

#[test]
fn rejects_portable_exe_as_installer() {
    assert!(check_installer("FileUnlocker_portable.exe", true).is_err());
    assert!(check_installer("FileUnlocker_x64-setup.exe", false).is_err());
}

#[test]
fn asset_name_rejects_traversal_and_reserved() {
    assert!(validate_asset_name("FileUnlocker_x64-setup.exe").is_ok());
    assert!(validate_asset_name("..\\evil.exe").is_err());
    assert!(validate_asset_name("a/b.exe").is_err());
    assert!(validate_asset_name("").is_err());
    for bad in [
        "CON", "con.txt", "NUL.exe", "PRN.dat", "AUX", "com1.exe", "COM9.bin", "lpt1",
        "LPT9.dll",
    ] {
        assert!(validate_asset_name(bad).is_err(), "应拒绝 {bad}");
    }
    for good in [
        "com0.exe",
        "com10.exe",
        "lpt0.dat",
        "common.txt",
        "console.zip",
    ] {
        assert!(validate_asset_name(good).is_ok(), "应接受 {good}");
    }
}

#[test]
fn parse_version_reads_digit_runs() {
    assert_eq!(parse_version("v0.3.1-beta2"), vec![0, 3, 1, 2]);
    assert_eq!(parse_version("1..2"), vec![1, 2]);
    assert_eq!(parse_version("99999999999999999999.1"), vec![1]);
    assert_eq!(parse_version("dev"), Vec::<u64>::new());
}

#[test]
fn asset_name_messages() {
    assert_eq!(validate_asset_name("C:x.exe").unwrap_err(), "非法的资产文件名：C:x.exe");
    assert_eq!(validate_asset_name("..").unwrap_err(), "非法的资产文件名：..");
    assert_eq!(
        validate_asset_name("Aux.tar.gz").unwrap_err(),
        "非法的资产文件名（Windows 保留名）：Aux.tar.gz"
    );
    assert_eq!(validate_asset_name("a:b").unwrap_err(), "非法的资产文件名：a:b");
    assert_eq!(validate_asset_name("ok.exe").unwrap(), "ok.exe");
}

#[test]
fn installer_messages() {
    assert_eq!(
        check_installer("setup.exe", true).unwrap_err(),
        "拒绝启动：不是 FileUnlocker 安装程序"
    );
    assert_eq!(
        check_installer("FileUnlocker.exe", true).unwrap_err(),
        "拒绝启动：不是 FileUnlocker 安装程序（应为 *-setup.exe）"
    );
    assert_eq!(check_installer("FileUnlocker_x64-setup.exe", false).unwrap_err(), "安装程序文件不存在");
    assert!(check_installer("FILEUNLOCKER_x64-SETUP.EXE", true).is_ok());
}

fn manifest(version: &str) -> UpdateManifest {
    UpdateManifest {
        version: version.to_string(),
        notes: "notes".to_string(),
        assets: vec![UpdateAsset {
            name: "FileUnlocker_x64-setup.exe".to_string(),
            kind: "installer".to_string(),
            url: "https://example.invalid/a".to_string(),
            sha256: "00".to_string(),
        }],
    }
}

#[test]
fn update_check_uses_first_reachable_source() {
    let found = check_for_update("0.3.8", &vec![Ok(manifest("0.4.0"))]).unwrap().unwrap();
    assert_eq!((found.version.as_str(), found.source.as_str()), ("0.4.0", "github"));
    assert!(check_for_update("0.3.8", &vec![Ok(manifest("0.3.8")), Ok(manifest("9.0"))]).unwrap().is_none());
    let from_gitee = check_for_update("0.3.8", &vec![Err("timeout".to_string()), Ok(manifest("1.0"))]).unwrap().unwrap();
    assert_eq!(from_gitee.source, "gitee");
    assert_eq!(
        check_for_update("0.3.8", &vec![Err("a".to_string()), Err("b".to_string())]).unwrap_err(),
        "全部更新源不可达（最后错误：gitee: b）"
    );
    assert_eq!(check_for_update("0.3.8", &vec![]).unwrap_err(), "未配置更新源");
}

#[test]
fn manifest_without_assets_is_refused() {
    let mut m = manifest("1.0");
    m.assets.clear();
    assert_eq!(check_manifest(Ok(m)).unwrap_err(), "清单无资产条目");
    assert_eq!(check_manifest(Err("清单解析失败：x".to_string())).unwrap_err(), "清单解析失败：x");
    assert!(check_manifest(Ok(manifest("1.0"))).is_ok());
}

#[test]
fn download_digest_is_checked_ignoring_case() {
    let sha_abc = "ba7816bf8f01cfea414140de5dae2223b00361a396177a9cb410ff61f20015ad";
    assert!(check_download(b"abc", sha_abc).is_ok());
    assert!(check_download(b"abc", &sha_abc.to_uppercase()).is_ok());
    assert_eq!(
        check_download(b"abd", "00").unwrap_err(),
        format!("SHA256 校验失败：期望 00，实际 {}", "a52d159f262b2c6ddb724a61840befc36eb30c88877a4030b65cbe86298449c9")
    );
    assert_eq!(hex_string(&vec![0x0f, 0xa0]), "0fa0");
}

#[test]
fn newer_is_transitive_and_asymmetric() {
    assert!(is_newer("1.2", "1.1.9") && is_newer("1.1.9", "v1.1"));
    assert!(is_newer("1.2", "v1.1"));
    assert!(!is_newer("1.1.9", "1.2"));
    assert!(!is_newer("1.0.0.0", "1"));
}
