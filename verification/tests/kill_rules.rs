use file_unlocker::kill::{check_kill_request, tree_early_decision, tree_root_decision};
use file_unlocker::kill::{descendants_still_alive, snapshot_step, SnapshotStep};
use file_unlocker::kill::{
    is_descendant_stale, is_protected_process_path, kill_process, kill_process_tree,
    parse_creation_time, ProcessObservation, ProcessSnapshotEntry,
};

const OWN_PID: u32 = 4242;

fn opened(creation_time: u64, exe: &str) -> ProcessObservation {
    ProcessObservation::Opened(Some(creation_time), Some(exe.to_string()))
}

#[test]
fn parse_creation_time_rejects_garbage() {
    assert!(parse_creation_time("133901234567890000").is_ok());
    assert!(parse_creation_time("not-a-time").is_err());
    assert!(parse_creation_time("").is_err());
    assert!(parse_creation_time("-1").is_err());
}

#[test]
fn kill_rejects_invalid_identity() {
    let d = kill_process(1234, "not-a-time".into(), "x.exe".into(), OWN_PID, &opened(1, "x.exe"), &None);
    assert!(d.result.is_err());
    assert!(!d.terminate);
}

#[test]
fn kill_rejects_zero_pid() {
    let d = kill_process(0, "0".into(), String::new(), OWN_PID, &opened(0, ""), &None);
    assert!(d.result.is_err());
    assert!(!d.terminate);
}

#[test]
fn kill_rejects_system_process() {
    let err = kill_process(4, "0".into(), String::new(), OWN_PID, &opened(0, ""), &None)
        .result
        .unwrap_err();
    assert!(
        err.contains("System") || err.contains("系统"),
        "unexpected: {err}"
    );
}

#[test]
fn protected_process_names_are_rejected() {
    assert!(is_protected_process_path(r"C:\Windows\explorer.exe"));
    assert!(is_protected_process_path(r"C:\Windows\System32\lsass.exe"));
    assert!(!is_protected_process_path(r"C:\Tools\notepad.exe"));
}

#[test]
fn stale_descendant_is_filtered_by_creation_time() {
    let child = ProcessSnapshotEntry {
        pid: 123,
        parent_pid: 456,
        creation_time: 100,
    };
    assert!(is_descendant_stale(&child, 456, 101));
    assert!(!is_descendant_stale(&child, 456, 100));
    assert!(!is_descendant_stale(&child, 789, 101));
}

#[test]
fn parse_creation_time_values_and_message() {
    assert_eq!(parse_creation_time("133901234567890000"), Ok(133901234567890000));
    assert_eq!(parse_creation_time("+7"), Ok(7));
    assert_eq!(
        parse_creation_time("18446744073709551616"),
        Err("无效的进程创建时间：18446744073709551616".to_string())
    );
}

#[test]
fn kill_rejects_self() {
    let exe = r"C:\Tools\file-unlocker.exe";
    let d = kill_process(OWN_PID, "77".into(), exe.into(), OWN_PID, &opened(77, exe), &None);
    assert!(!d.terminate);
    assert_eq!(d.result.unwrap_err(), "拒绝结束本程序自身");
}

#[test]
fn kill_rejects_identity_mismatch_without_terminating_target() {
    let exe = r"C:\Tools\notepad.exe";
    let d = kill_process(1234, "501".into(), exe.into(), OWN_PID, &opened(500, exe), &None);
    assert!(!d.terminate);
    assert!(d.result.unwrap_err().contains("已变化"));
}

#[test]
fn kill_terminates_a_verified_process() {
    let exe = r"C:\Tools\notepad.exe";
    let obs = opened(500, exe);
    let plan = kill_process(1234, "500".into(), r"c:/tools/NOTEPAD.EXE".into(), OWN_PID, &obs, &None);
    assert!(plan.terminate);
    assert_eq!(plan.result.clone().unwrap_err(), "未尝试结束");
    let done = kill_process(1234, "500".into(), exe.into(), OWN_PID, &obs, &Some(Ok(())));
    assert!(done.terminate && done.result.is_ok());
    let failed = kill_process(1234, "500".into(), exe.into(), OWN_PID, &obs, &Some(Err("x".into())));
    assert_eq!(failed.result.unwrap_err(), "x");
    let gone = kill_process(1234, "500".into(), exe.into(), OWN_PID, &ProcessObservation::OpenFailed(87, "bad".into()), &None);
    assert!(!gone.terminate && gone.result.is_ok());
    let protected = kill_process(1234, "500".into(), r"C:\Windows\explorer.exe".into(), OWN_PID, &opened(500, r"C:\Windows\explorer.exe"), &None);
    assert!(!protected.terminate);
    assert!(protected.result.unwrap_err().contains("受保护"));
}

#[test]
fn kill_tree_rejects_invalid_roots() {
    let t = kill_process_tree(4, "1".into(), String::new(), OWN_PID, &opened(1, ""), Ok(vec![]), &vec![], &vec![]);
    assert_eq!(t.result.unwrap_err(), "无效的进程树根 PID：4");
    assert!(t.order.is_empty());
    let exe = r"C:\a.exe";
    let snapshot = vec![ProcessSnapshotEntry { pid: 1234, parent_pid: 1, creation_time: 56 }];
    let reused = kill_process_tree(1234, "55".into(), exe.into(), OWN_PID, &opened(55, exe), Ok(snapshot), &vec![], &vec![]);
    assert!(reused.result.unwrap_err().contains("已变化"));
    assert!(reused.order.is_empty());
    let mismatch = kill_process_tree(1234, "55".into(), exe.into(), OWN_PID, &opened(54, exe), Ok(vec![]), &vec![], &vec![]);
    assert!(mismatch.result.unwrap_err().contains("已变化"));
    assert!(mismatch.order.is_empty());
}

#[test]
fn kill_tree_takes_out_child() {
    let e = |pid: u32, parent_pid: u32, creation_time: u64| ProcessSnapshotEntry { pid, parent_pid, creation_time };
    let exe = r"C:\Tools\app.exe";
    let snapshot = vec![e(10, 1, 100), e(20, 10, 110), e(30, 20, 120), e(40, 10, 90)];
    let children = vec![(20, opened(110, r"C:\Tools\child.exe")), (30, opened(120, r"C:\Tools\g.exe"))];
    let plan = kill_process_tree(10, "100".into(), exe.into(), OWN_PID, &opened(100, exe), Ok(snapshot.clone()), &children, &vec![]);
    assert_eq!(plan.order, vec![30, 20, 10]);
    let terms: Vec<(u32, Result<(), String>)> = plan.order.iter().map(|p| (*p, Ok(()))).collect();
    let done = kill_process_tree(10, "100".into(), exe.into(), OWN_PID, &opened(100, exe), Ok(snapshot.clone()), &children, &terms);
    assert_eq!(done.order, vec![30, 20, 10]);
    assert!(done.result.is_ok());
    let partial = vec![(30, Ok(())), (20, Err("拒绝访问".to_string()))];
    let failed = kill_process_tree(10, "100".into(), exe.into(), OWN_PID, &opened(100, exe), Ok(snapshot), &children, &partial);
    assert_eq!(
        failed.result.unwrap_err(),
        "结束进程树部分失败（成功 1/3）：20: 拒绝访问; 10: 未尝试结束"
    );
}

#[test]
fn descendants_are_found_through_parent_links() {
    let e = |pid: u32, parent_pid: u32| ProcessSnapshotEntry { pid, parent_pid, creation_time: 1 };
    let snapshot = vec![e(10, 1), e(20, 10), e(30, 20), e(40, 99), e(21, 10), e(50, 40)];
    assert_eq!(descendants_still_alive(&snapshot, 10), Some(vec![20, 21, 30]));
    assert_eq!(descendants_still_alive(&snapshot, 30), None);
    assert_eq!(descendants_still_alive(&snapshot, 99), Some(vec![40, 50]));
}

#[test]
fn snapshot_query_steps() {
    assert_eq!(snapshot_step(0x100_0000, 0x180_0000, -1073741820), SnapshotStep::Retry(0x180_0000));
    assert_eq!(snapshot_step(0x100_0000, 0, -1073741820), SnapshotStep::Retry(0x200_0000));
    assert_eq!(
        snapshot_step(0x300_0000, 0, -1073741820),
        SnapshotStep::Failed("进程快照过大，无法枚举".to_string())
    );
    assert_eq!(
        snapshot_step(0x100_0000, 0, -1073741819),
        SnapshotStep::Failed("NtQuerySystemInformation 失败 (NTSTATUS 0xc0000005)".to_string())
    );
    assert_eq!(snapshot_step(0x100_0000, 0, 0), SnapshotStep::Failed("进程快照返回长度无效".to_string()));
    assert_eq!(snapshot_step(0x100_0000, 5, 0), SnapshotStep::Done);
}

#[test]
fn kill_requests_are_checked_before_opening() {
    assert_eq!(check_kill_request(1234, "55", OWN_PID, false), Ok(55));
    assert_eq!(check_kill_request(4, "55", OWN_PID, false).unwrap_err(), "拒绝结束系统进程 PID 4");
    assert_eq!(check_kill_request(0, "55", OWN_PID, true).unwrap_err(), "无效的进程树根 PID：0");
    assert_eq!(check_kill_request(OWN_PID, "55", OWN_PID, true).unwrap_err(), "拒绝结束本程序自身");
    assert_eq!(check_kill_request(1234, "x", OWN_PID, true).unwrap_err(), "无效的进程创建时间：x");
}

#[test]
fn tree_decisions_before_the_walk() {
    let exe = r"C:\Tools\app.exe";
    assert!(tree_root_decision(10, "100", exe, OWN_PID, &opened(100, exe)).is_none());
    assert!(tree_root_decision(10, "100", exe, OWN_PID, &ProcessObservation::OpenFailed(1168, String::new()))
        .unwrap()
        .is_ok());
    assert!(tree_root_decision(10, "100", exe, OWN_PID, &opened(99, exe)).unwrap().unwrap_err().contains("已变化"));
    let e = |pid: u32, parent_pid: u32, creation_time: u64| ProcessSnapshotEntry { pid, parent_pid, creation_time };
    let ok = Ok(vec![e(10, 1, 100), e(20, 10, 110)]);
    assert!(tree_early_decision(10, "100", exe, OWN_PID, &opened(100, exe), &ok).is_none());
    assert!(tree_early_decision(10, "100", exe, OWN_PID, &opened(100, exe), &Ok(vec![e(20, 10, 110)])).unwrap().is_ok());
    assert_eq!(
        tree_early_decision(10, "100", exe, OWN_PID, &opened(100, exe), &Ok(vec![e(10, 1, 101)])).unwrap().unwrap_err(),
        "目标进程已变化（PID 可能被复用），请重新检测后再操作"
    );
    assert_eq!(
        tree_early_decision(10, "100", exe, OWN_PID, &opened(100, exe), &Err("快照失败".to_string())).unwrap().unwrap_err(),
        "快照失败"
    );
}

#[test]
fn kill_tree_reports_refused_children() {
    let e = |pid: u32, parent_pid: u32, creation_time: u64| ProcessSnapshotEntry { pid, parent_pid, creation_time };
    let exe = r"C:\Tools\app.exe";
    let snapshot = vec![e(10, 1, 100), e(20, 10, 110), e(30, 10, 120), e(40, 30, 130)];
    // 30 was replaced since the snapshot (its creation time differs), so it
    // and its own child 40 are left alone.
    let children = vec![
        (20, opened(110, r"C:\Tools\a.exe")),
        (30, opened(121, r"C:\Tools\b.exe")),
        (40, opened(130, r"C:\Tools\c.exe")),
    ];
    let terms = vec![(20, Ok(())), (10, Ok(()))];
    let t = kill_process_tree(10, "100".into(), exe.into(), OWN_PID, &opened(100, exe), Ok(snapshot), &children, &terms);
    assert_eq!(t.order, vec![20, 10]);
    assert_eq!(
        t.result.unwrap_err(),
        "结束进程树部分失败（成功 2/2）：30: 进程 30 已变化（PID 可能被复用），请重新检测后再操作"
    );
}
