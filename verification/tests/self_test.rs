use file_unlocker::diagnostics::probe_file_name;
use file_unlocker::diagnostics::{
    parse_reg_value, run_diagnostics, DiagFacts, PrivilegeProbe, RmProbe, ScanProbe,
};
use file_unlocker::logs::{check_export_target, export_dir_name, export_result, log_stamp};

#[test]
fn registry_value_is_read_after_type_tag() {
    let out = "\r\nHKEY_LOCAL_MACHINE\\SOFTWARE\\Microsoft\\Windows NT\\CurrentVersion\r\n    ProductName    REG_SZ    Windows 10 Pro\r\n\r\n";
    assert_eq!(parse_reg_value(out, "ProductName"), Some("Windows 10 Pro".to_string()));
    assert_eq!(parse_reg_value(out, "Missing"), None);
    assert_eq!(parse_reg_value("CurrentBuildNumber 19045", "CurrentBuildNumber"), Some("CurrentBuildNumber 19045".to_string()));
}

#[test]
fn diagnostics_checklist() {
    let facts = DiagFacts {
        is_admin: false,
        debug_privilege: PrivilegeProbe::Checked(false),
        restart_manager: RmProbe::Listed(0, 1),
        handle_scan: ScanProbe::Scanned(Ok(vec![5, 77]), 77),
        context_menu: Ok(false),
        log_dir: Ok("C:\\Temp".to_string()),
        product_name: Some("    ProductName    REG_SZ    Windows 11 Pro\r\n".to_string()),
        build_number: Some("    CurrentBuildNumber    REG_SZ    22631\r\n".to_string()),
    };
    let items = run_diagnostics(&facts);
    let rows: Vec<(&str, &str, &str)> = items
        .iter()
        .map(|i| (i.name.as_str(), i.status.as_str(), i.detail.as_str()))
        .collect();
    assert_eq!(
        rows,
        vec![
            ("管理员权限", "fail", "未提权：结束系统进程与完整句柄扫描将受限"),
            ("调试特权 (SeDebug)", "warn", "未启用（管理员账户默认禁用，扫描时会自动尝试开启）"),
            ("Restart Manager", "ok", "正常（检出 1 个占用进程）"),
            ("句柄扫描引擎", "ok", "正常（成功检出本进程占用的探针文件）"),
            ("右键菜单", "warn", "未注册（运行 scripts\\register-context-menu.bat 可注册）"),
            ("日志写入", "ok", "可写（日志目录：C:\\Temp）"),
            ("系统版本", "ok", "Windows 11 Pro (Build 22631)"),
        ]
    );
}

#[test]
fn diagnostics_failures() {
    let facts = DiagFacts {
        is_admin: true,
        debug_privilege: PrivilegeProbe::CheckFailed("boom".to_string()),
        restart_manager: RmProbe::Listed(5, 0),
        handle_scan: ScanProbe::Scanned(Err("x".to_string()), 1),
        context_menu: Err("no reg".to_string()),
        log_dir: Err("denied".to_string()),
        product_name: None,
        build_number: Some("x".to_string()),
    };
    let items = run_diagnostics(&facts);
    assert_eq!(items[0].status, "ok");
    assert_eq!(items[1].detail, "检查失败：boom");
    assert_eq!(
        items[2].detail,
        "查询异常（错误码 5），本机 RM 服务受限；句柄扫描引擎独立兜底，不影响使用"
    );
    assert_eq!(items[3].status, "fail");
    assert_eq!(items[4].detail, "无法查询注册表：no reg");
    assert_eq!(items[5].detail, "临时目录写入失败：denied");
    assert_eq!((items[6].status.as_str(), items[6].detail.as_str()), ("warn", "无法读取注册表版本信息"));
}

#[test]
fn log_export_names_and_messages() {
    assert_eq!(log_stamp(2024, 3, 7, 9, 5, 0), "20240307-090500");
    assert_eq!(log_stamp(12345, 12, 31, 23, 59, 59), "123451231-235959");
    assert_eq!(export_dir_name("20240307-090500"), "FileUnlocker-logs-20240307-090500");
    assert_eq!(check_export_target(false).unwrap_err(), "导出目标不是目录");
    assert_eq!(
        export_result(0, "D:\\x").unwrap_err(),
        "日志目录中没有可导出的文件（程序可能刚启动尚无日志）"
    );
    assert_eq!(export_result(3, "D:\\x").unwrap(), "已导出 3 个日志文件到：D:\\x");
}

#[test]
fn probe_names_are_padded_hex() {
    assert_eq!(
        probe_file_name("fu_probe", 42, 0xabc, 1, 0),
        "fu_probe_42_0000000000000abc_0000000000000001_00.tmp"
    );
}
