use file_unlocker::handle_scan::{
    bench_scan, collect_handle_paths_if, dir_target, file_handle_candidates, file_target,
    file_type_index, most_frequent, normalize_path, own_probe_candidates, parse_handle_table,
    query_step, scan, scan_directory, HandleEntry, HandleObservations, QueryStep,
    STATUS_INFO_LENGTH_MISMATCH,
};

#[test]
fn normalize_strips_device_prefix() {
    assert_eq!(normalize_path(r"\\?\C:\Data\F.TXT"), r"c:\data\f.txt");
}

#[test]
fn normalize_restores_unc_prefix() {
    assert_eq!(normalize_path(r"\\?\UNC\NAS\Docs\f.txt"), r"\\nas\docs\f.txt");
}

#[test]
fn normalize_keeps_plain_unc_and_local() {
    assert_eq!(normalize_path(r"\\NAS\Docs\f.txt"), r"\\nas\docs\f.txt");
    assert_eq!(normalize_path(r"C:\Data\f.txt"), r"c:\data\f.txt");
}

fn table(entries: &[(u64, u64, u32, u16)], announced: u64) -> Vec<u8> {
    let mut buf = Vec::new();
    buf.extend_from_slice(&announced.to_le_bytes());
    buf.extend_from_slice(&0u64.to_le_bytes());
    for &(pid, handle, access, ty) in entries {
        buf.extend_from_slice(&0u64.to_le_bytes());
        buf.extend_from_slice(&pid.to_le_bytes());
        buf.extend_from_slice(&handle.to_le_bytes());
        buf.extend_from_slice(&access.to_le_bytes());
        buf.extend_from_slice(&0u16.to_le_bytes());
        buf.extend_from_slice(&ty.to_le_bytes());
        buf.extend_from_slice(&0u32.to_le_bytes());
        buf.extend_from_slice(&0u32.to_le_bytes());
    }
    buf
}

#[test]
fn handle_table_is_parsed_and_checked() {
    let buf = table(&[(8, 0x44, 0x12019f, 37), (0x1_0000_0010, 0x48, 0, 40)], 2);
    let entries = parse_handle_table(&Some(buf)).unwrap();
    assert_eq!(
        entries,
        vec![
            HandleEntry { process_id: 8, handle: 0x44, granted_access: 0x12019f, object_type_index: 37 },
            HandleEntry { process_id: 0x1_0000_0010, handle: 0x48, granted_access: 0, object_type_index: 40 },
        ]
    );
    assert_eq!(
        parse_handle_table(&None).unwrap_err(),
        "系统句柄表快照查询失败（重试耗尽）"
    );
    assert_eq!(
        parse_handle_table(&Some(vec![0u8; 15])).unwrap_err(),
        "句柄表快照数据异常（过短）"
    );
    let short = table(&[(8, 0x44, 1, 37)], 2);
    assert_eq!(
        parse_handle_table(&Some(short)).unwrap_err(),
        "句柄表在两次调用间变化，快照不一致"
    );
}

#[test]
fn file_type_index_is_most_frequent_resolved_type() {
    let entries = vec![
        HandleEntry { process_id: 7, handle: 1, granted_access: 1, object_type_index: 37 },
        HandleEntry { process_id: 7, handle: 2, granted_access: 1, object_type_index: 40 },
        HandleEntry { process_id: 7, handle: 3, granted_access: 1, object_type_index: 37 },
        HandleEntry { process_id: 7, handle: 4, granted_access: 0, object_type_index: 37 },
        HandleEntry { process_id: 9, handle: 5, granted_access: 1, object_type_index: 37 },
        HandleEntry { process_id: 7, handle: 6, granted_access: 1, object_type_index: 0 },
    ];
    let probes = own_probe_candidates(&entries, 7);
    assert_eq!(probes, vec![(1, 37), (2, 40), (3, 37)]);
    assert_eq!(file_type_index(&probes, &vec![true, true, true]), Ok(37));
    assert_eq!(file_type_index(&probes, &vec![false, true, false]), Ok(40));
    assert_eq!(
        file_type_index(&probes, &vec![false, false, false]).unwrap_err(),
        "无法测定文件句柄类型索引（句柄表快照不完整）"
    );
    assert_eq!(most_frequent(&vec![3, 5, 5, 3, 5]), Some(5));
    assert_eq!(most_frequent(&vec![]), None);
}

#[test]
fn candidates_keep_file_handles_with_access() {
    let entries = vec![
        HandleEntry { process_id: 0, handle: 1, granted_access: 1, object_type_index: 37 },
        HandleEntry { process_id: 12, handle: 2, granted_access: 1, object_type_index: 37 },
        HandleEntry { process_id: 12, handle: 3, granted_access: 0, object_type_index: 37 },
        HandleEntry { process_id: 13, handle: 4, granted_access: 5, object_type_index: 36 },
        HandleEntry { process_id: 0x1_0000_0000, handle: 5, granted_access: 5, object_type_index: 37 },
    ];
    assert_eq!(file_handle_candidates(&entries, 37), vec![(12, 2, 1)]);
}

#[test]
fn query_steps_follow_the_reported_size() {
    assert_eq!(query_step(0, 0x1_0000, 0x20_0000, STATUS_INFO_LENGTH_MISMATCH, 0x2000_0000), QueryStep::Retry(0x20_0000));
    assert_eq!(query_step(0, 0x1_0000, 0, STATUS_INFO_LENGTH_MISMATCH, 0x2000_0000), QueryStep::Retry(0x4_0000));
    assert_eq!(query_step(0, 0x1_0000, 0x3000_0000, STATUS_INFO_LENGTH_MISMATCH, 0x2000_0000), QueryStep::Failed);
    assert_eq!(query_step(11, 0x1_0000, 0, STATUS_INFO_LENGTH_MISMATCH, 0x2000_0000), QueryStep::Failed);
    assert_eq!(query_step(3, 0x1_0000, 100, 0, 0x2000_0000), QueryStep::Done);
    assert_eq!(query_step(3, 0x1_0000, 100, -5, 0x2000_0000), QueryStep::Failed);
}

/// Observations of a snapshot in which this process (PID 7) holds one
/// File handle (type 37, probed as a disk file, resolution skipped) and each
/// `(pid, path)` is one more File handle with its resolution outcome.
fn observations(handles: &[(u64, Option<&str>)]) -> HandleObservations {
    let mut entries = vec![(7u64, 0x10u64, 1u32, 37u16)];
    for (k, (pid, _)) in handles.iter().enumerate() {
        entries.push((*pid, 0x100 + k as u64 * 4, 0x12019f, 37));
    }
    let snapshot = table(&entries, entries.len() as u64);
    let mut resolved = vec![None];
    for (pid, path) in handles {
        if *pid as u32 != 0 {
            resolved.push(path.map(|p| p.to_string()));
        }
    }
    HandleObservations { snapshot: Some(snapshot), own_pid: 7, probe_is_file: vec![true], resolved }
}

#[test]
fn scan_matches_case_insensitively_and_by_folder() {
    let obs = observations(&[
        (10, Some(r"C:\Data\F.TXT")),
        (11, Some(r"c:\data\other.txt")),
        (10, Some(r"C:\DATA\f.txt")),
        (12, Some(r"C:\Data\Sub\g.txt")),
        (13, Some(r"C:\DataX\h.txt")),
        (14, None),
    ]);
    let pids = scan(r"\\?\C:\Data\f.txt", &obs).unwrap();
    assert_eq!(pids, vec![10]);
    let groups = scan_directory(r"C:\Data", &obs).unwrap();
    assert_eq!(
        groups,
        vec![
            (10, vec![r"C:\Data\F.TXT".to_string(), r"C:\DATA\f.txt".to_string()]),
            (11, vec![r"c:\data\other.txt".to_string()]),
            (12, vec![r"C:\Data\Sub\g.txt".to_string()]),
        ]
    );
    let t = file_target(r"C:\Data\f.txt");
    assert_eq!(collect_handle_paths_if(&t, &obs).unwrap().len(), 1);
    let d = dir_target(r"C:\Data\");
    assert_eq!(collect_handle_paths_if(&d, &obs).unwrap().len(), 3);
    assert_eq!(bench_scan(r"C:\Data\Sub\G.TXT", &obs), vec![12]);
}

#[test]
fn scan_never_reports_pid_zero() {
    let obs = observations(&[(0, None), (0x1_0000_0000, None), (21, Some(r"C:\x.txt"))]);
    assert_eq!(obs.resolved.len(), 2);
    assert_eq!(scan(r"C:\x.txt", &obs).unwrap(), vec![21]);
}

#[test]
fn scan_engine_failures_are_errors() {
    let failed = HandleObservations { snapshot: None, own_pid: 7, probe_is_file: vec![], resolved: vec![] };
    assert_eq!(scan("C:\\a", &failed), Err("系统句柄表快照查询失败（重试耗尽）".to_string()));
    assert!(bench_scan("C:\\a", &failed).is_empty());
    let short = HandleObservations { snapshot: Some(vec![0u8; 8]), own_pid: 7, probe_is_file: vec![], resolved: vec![] };
    assert_eq!(scan_directory("C:\\a", &short), Err("句柄表快照数据异常（过短）".to_string()));
    let mut no_type = observations(&[(10, Some(r"C:\a"))]);
    no_type.probe_is_file = vec![false];
    no_type.resolved = vec![];
    assert_eq!(
        scan("C:\\a", &no_type),
        Err("无法测定文件句柄类型索引（句柄表快照不完整）".to_string())
    );
}

#[test]
fn normalize_resolves_slashes_and_dots() {
    assert_eq!(normalize_path("C:/Data/./Sub/../F.TXT"), r"c:\data\f.txt");
    assert_eq!(normalize_path(r"C:\..\x"), r"c:\x");
    assert_eq!(normalize_path(r"\\NAS\Docs\.\a\..\f.txt"), r"\\nas\docs\f.txt");
    let pids = scan("C:/Data/f.txt", &observations(&[(5, Some(r"C:\DATA\F.txt"))])).unwrap();
    assert_eq!(pids, vec![5]);
}

#[test]
fn folder_groups_hold_exactly_the_file_hits() {
    let obs = observations(&[
        (10, Some(r"C:\Data\Sub\F.TXT")),
        (11, Some(r"C:\Data\Sub\g.txt")),
        (12, Some(r"C:\Data2\Sub\f.txt")),
    ]);
    let file = r"C:\Data\Sub\f.txt";
    let pids = scan(file, &obs).unwrap();
    let groups = scan_directory(r"C:\Data", &obs).unwrap();
    let key = normalize_path(file);
    let from_groups: Vec<u32> = groups
        .iter()
        .filter(|(_, paths)| paths.iter().any(|p| p.to_lowercase() == key))
        .map(|(pid, _)| *pid)
        .collect();
    assert_eq!(pids, vec![10]);
    assert_eq!(from_groups, pids);
    assert!(groups.iter().all(|(pid, _)| *pid != 12));
}
