use file_unlocker::kill::{OpenOutcome, ProcessSnapshotEntry, TreeWalk};

fn e(pid: u32, parent_pid: u32, creation_time: u64) -> ProcessSnapshotEntry {
    ProcessSnapshotEntry { pid, parent_pid, creation_time }
}

#[test]
fn tree_walk_visits_children_and_kills_them_first() {
    // 10 is the root (created at 100); 20 and 30 are its children, 40 a
    // grandchild, 50 an orphan of an older process that had PID 10.
    let snapshot = vec![
        e(10, 1, 100),
        e(20, 10, 110),
        e(50, 10, 90),
        e(30, 10, 120),
        e(40, 20, 130),
    ];
    let mut walk = TreeWalk::start(snapshot, 10, 100).unwrap().unwrap();
    let mut handed_out = Vec::new();
    while let Some(child) = walk.next_child() {
        handed_out.push(child.pid);
        let outcome = if child.pid == 30 {
            OpenOutcome::Rejected("拒绝".to_string())
        } else {
            OpenOutcome::Verified
        };
        walk.report(outcome);
    }
    assert_eq!(handed_out, vec![20, 30, 40]);
    assert_eq!(walk.kill_order(), vec![40, 20, 10]);
    let all_ok = vec![(40, Ok(())), (20, Ok(())), (10, Ok(()))];
    assert_eq!(
        walk.summarize(&all_ok).unwrap_err(),
        "结束进程树部分失败（成功 3/3）：30: 拒绝"
    );
}

#[test]
fn tree_walk_checks_root_identity() {
    let snapshot = vec![e(10, 1, 100), e(20, 10, 110)];
    assert_eq!(
        TreeWalk::start(snapshot.clone(), 10, 99).err().unwrap(),
        "目标进程已变化（PID 可能被复用），请重新检测后再操作"
    );
    assert!(TreeWalk::start(snapshot.clone(), 77, 1).unwrap().is_none());
    let mut walk = TreeWalk::start(snapshot, 10, 100).unwrap().unwrap();
    assert_eq!(walk.next_child().map(|c| c.pid), Some(20));
    walk.report(OpenOutcome::Gone);
    assert!(walk.next_child().is_none());
    assert_eq!(walk.kill_order(), vec![10]);
    assert!(walk.summarize(&vec![(10, Ok(()))]).is_ok());
    assert_eq!(
        walk.summarize(&vec![(10, Err("x".to_string()))]).unwrap_err(),
        "结束进程树部分失败（成功 0/1）：10: x"
    );
}
