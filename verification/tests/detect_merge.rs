use file_unlocker::detect::{merge_engine_hits, process_name_of, EngineHit};

fn hit(pid: u32, app_name: &str) -> EngineHit {
    EngineHit {
        pid,
        app_name: app_name.to_string(),
    }
}

#[test]
fn merge_dedupes_by_pid_and_marks_both() {
    let plan = merge_engine_hits(&[hit(100, "Word")], &[100]);
    assert_eq!(plan, vec![(100, "Word".to_string(), "both")]);
}

#[test]
fn merge_keeps_rm_only_and_handle_only_entries() {
    let plan = merge_engine_hits(&[hit(200, "Excel"), hit(300, "")], &[100, 200]);
    assert_eq!(
        plan,
        vec![
            (100, String::new(), "handle_scan"),
            (200, "Excel".to_string(), "both"),
            (300, String::new(), "restart_manager"),
        ]
    );
}

#[test]
fn merge_output_is_sorted_by_pid() {
    let plan = merge_engine_hits(&[hit(300, "c"), hit(100, "a")], &[200, 100]);
    let pids: Vec<u32> = plan.iter().map(|(pid, _, _)| *pid).collect();
    assert_eq!(pids, vec![100, 200, 300]);
}

#[test]
fn merge_empty_inputs_yield_empty_plan() {
    assert!(merge_engine_hits(&[], &[]).is_empty());
    let plan = merge_engine_hits(&[], &[42]);
    assert_eq!(plan, vec![(42, String::new(), "handle_scan")]);
}

#[test]
fn merge_does_not_overwrite_first_rm_app_name() {
    let plan = merge_engine_hits(&[hit(7, "First"), hit(7, "Second")], &[]);
    assert_eq!(plan, vec![(7, "First".to_string(), "restart_manager")]);
}

#[test]
fn process_name_falls_back_when_exe_path_empty() {
    assert_eq!(
        process_name_of(r"C:\Tools\notepad.exe", "fallback"),
        "notepad.exe"
    );
    assert_eq!(
        process_name_of(r"C:/Tools/winword.exe", "fallback"),
        "winword.exe"
    );
    assert_eq!(process_name_of("", "Microsoft Word"), "Microsoft Word");
    assert_eq!(process_name_of("", ""), "");
}

#[test]
fn merge_keeps_handle_scan_label_for_repeated_pid() {
    // A PID the handle scan reports twice is one entry, found by one engine.
    let plan = merge_engine_hits(&[], &[9, 9]);
    assert_eq!(plan, vec![(9, String::new(), "handle_scan")]);
}
