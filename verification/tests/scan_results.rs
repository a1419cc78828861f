use file_unlocker::detect::{
    check_scan_target, get_locking_processes, make_process_info, scan_directory,
    scan_single_file, DirWalk, EntryKind, ProcessFacts, ScanTarget, MAX_FILES,
};

fn facts() -> Vec<ProcessFacts> {
    vec![
        ProcessFacts {
            pid: 100,
            exe_path: r"C:\Office\WINWORD.EXE".to_string(),
            description: "Microsoft Word".to_string(),
            creation_time: 133901234567890000,
        },
        ProcessFacts {
            pid: 100,
            exe_path: "ignored".to_string(),
            description: String::new(),
            creation_time: 1,
        },
    ]
}

#[test]
fn process_info_uses_reported_facts() {
    let info = make_process_info(100, "Word".to_string(), "both", 1, &facts());
    assert_eq!(info.pid, 100);
    assert_eq!(info.creation_time, "133901234567890000");
    assert_eq!(info.process_name, "WINWORD.EXE");
    assert_eq!(info.exe_path, r"C:\Office\WINWORD.EXE");
    assert_eq!(info.description, "Microsoft Word");
    assert_eq!(info.app_name, "Word");
    assert_eq!(info.source, "both");
    assert_eq!(info.locked_files, 1);
    let unknown = make_process_info(7, "Excel".to_string(), "restart_manager", 3, &facts());
    assert_eq!(unknown.creation_time, "0");
    assert_eq!(unknown.process_name, "Excel");
    assert_eq!(unknown.exe_path, "");
}

#[test]
fn single_file_merges_both_engines() {
    let rm = Ok(vec![(300, "Excel".to_string()), (100, "Word".to_string())]);
    let handles = Ok(vec![100, 42]);
    let list = scan_single_file(&rm, &handles, &facts()).unwrap();
    let summary: Vec<(u32, &str, &str, u32)> = list
        .iter()
        .map(|p| (p.pid, p.app_name.as_str(), p.source.as_str(), p.locked_files))
        .collect();
    assert_eq!(
        summary,
        vec![
            (42, "", "handle_scan", 1),
            (100, "Word", "both", 1),
            (300, "Excel", "restart_manager", 1),
        ]
    );
}

#[test]
fn single_file_engine_failure_is_not_reported_as_unlocked() {
    let err = scan_single_file(&Err("rm down".to_string()), &Err("no snapshot".to_string()), &[])
        .unwrap_err();
    assert_eq!(
        err,
        "检测引擎异常（句柄扫描：no snapshot；Restart Manager：rm down）。请运行自检并导出日志反馈"
    );
    let err2 = scan_single_file(&Ok(vec![]), &Err("x".to_string()), &[]).unwrap_err();
    assert_eq!(err2, "检测引擎异常（句柄扫描：x；Restart Manager：）。请运行自检并导出日志反馈");
    assert!(scan_single_file(&Err("rm down".to_string()), &Ok(vec![]), &[]).unwrap().is_empty());
    let rm_only = scan_single_file(&Ok(vec![(5, "A".to_string())]), &Err("x".to_string()), &[]).unwrap();
    assert_eq!(rm_only.len(), 1);
}

#[test]
fn folder_counts_distinct_paths_per_process() {
    let rm = Ok(vec![(100, "Word".to_string()), (300, "Excel".to_string())]);
    let groups = Ok(vec![
        (100, vec!["c:\\d\\a.txt".to_string(), "c:\\d\\a.txt".to_string(), "c:\\d\\b.txt".to_string()]),
        (42, vec!["c:\\d\\c.txt".to_string()]),
    ]);
    let out = scan_directory(17, &rm, &groups, &facts()).unwrap();
    assert_eq!(out.file_count, 17);
    assert!(!out.truncated);
    let summary: Vec<(u32, &str, u32)> = out
        .processes
        .iter()
        .map(|p| (p.pid, p.source.as_str(), p.locked_files))
        .collect();
    assert_eq!(summary, vec![(42, "handle_scan", 1), (100, "both", 2), (300, "restart_manager", 1)]);
}

#[test]
fn folder_with_failed_handle_scan() {
    let out = scan_directory(3, &Ok(vec![(9, "X".to_string())]), &Err("e".to_string()), &[]).unwrap();
    assert_eq!(out.processes.len(), 1);
    assert_eq!(out.processes[0].source, "restart_manager");
    assert_eq!(
        scan_directory(3, &Ok(vec![]), &Err("e".to_string()), &[]).unwrap_err(),
        "检测引擎异常：e"
    );
}

#[test]
fn target_checks_come_first() {
    assert_eq!(
        get_locking_processes("", &ScanTarget::Missing, &[]).unwrap_err(),
        "文件路径为空"
    );
    assert_eq!(
        get_locking_processes("C:\\x.txt", &ScanTarget::Missing, &[]).unwrap_err(),
        "文件不存在：C:\\x.txt"
    );
    assert!(check_scan_target("C:\\x.txt", true).is_ok());
    let out = get_locking_processes(
        "C:\\x.txt",
        &ScanTarget::File { rm: Ok(vec![]), handles: Ok(vec![8]) },
        &[],
    )
    .unwrap();
    assert_eq!((out.file_count, out.processes.len()), (1, 1));
}

#[test]
fn folder_walk_skips_links_and_stops_at_limit() {
    let mut walk = DirWalk::new("root");
    assert_eq!(walk.next_dir(), Some("root"));
    walk.add_entry("sub", EntryKind::Dir);
    walk.add_entry("link", EntryKind::Link);
    walk.add_entry("a.txt", EntryKind::File);
    walk.add_entry("bad", EntryKind::Unreadable);
    assert_eq!(walk.next_dir(), Some("sub"));
    walk.add_entry("b.txt", EntryKind::File);
    assert_eq!(walk.next_dir(), None);
    assert_eq!(walk.into_files(), vec!["a.txt", "b.txt"]);

    let mut big = DirWalk::new(0usize);
    assert_eq!(big.next_dir(), Some(0));
    big.add_entry(1, EntryKind::Dir);
    for i in 0..(MAX_FILES + 5) {
        big.add_entry(10 + i, EntryKind::File);
    }
    assert_eq!(big.next_dir(), None);
    assert_eq!(big.into_files().len(), MAX_FILES);
}
