use file_unlocker::engines::restart_manager::{
    batch_query_restart_manager, batch_ranges, query_restart_manager, query_restart_manager_batch,
    rm_list_step, rm_process_list, RmListStep, RmQuery,
};

#[test]
fn list_steps() {
    assert!(matches!(rm_list_step(0, 0, 3, 2), RmListStep::Done(2)));
    assert!(matches!(rm_list_step(0, 234, 3, 0), RmListStep::Retry(3)));
    match rm_list_step(4, 234, 3, 0) {
        RmListStep::Failed(m) => assert_eq!(m, "进程表持续变化，RmGetList 重试 5 次仍未成功"),
        _ => panic!("expected failure"),
    }
    match rm_list_step(0, 5, 3, 0) {
        RmListStep::Failed(m) => assert_eq!(m, "RmGetList 失败 (错误码 5)"),
        _ => panic!("expected failure"),
    }
    match rm_list_step(0, 234, 0, 0) {
        RmListStep::Failed(m) => assert_eq!(m, "RmGetList 失败 (错误码 234)"),
        _ => panic!("expected failure"),
    }
}

#[test]
fn process_list_from_raw_entries() {
    let raw = vec![
        (10, vec![b'W' as u16, b'o' as u16, 0, b'z' as u16]),
        (11, vec![0]),
        (12, vec![b'Q' as u16]),
    ];
    assert_eq!(
        rm_process_list(&raw, 2),
        vec![(10, "Wo".to_string()), (11, String::new())]
    );
    assert_eq!(rm_process_list(&raw, 9).len(), 3);
}

#[test]
fn query_stages() {
    assert_eq!(
        query_restart_manager("", true, &RmQuery::SessionFailed(1)).unwrap_err(),
        "文件路径为空"
    );
    assert_eq!(
        query_restart_manager("C:\\a", false, &RmQuery::SessionFailed(1)).unwrap_err(),
        "文件不存在：C:\\a"
    );
    assert_eq!(
        query_restart_manager("C:\\a", true, &RmQuery::SessionFailed(1)).unwrap_err(),
        "RmStartSession 失败 (错误码 1)"
    );
    assert_eq!(
        query_restart_manager("C:\\a", true, &RmQuery::RegisterFailed(2)).unwrap_err(),
        "RmRegisterResources 失败 (错误码 2)"
    );
    assert_eq!(
        query_restart_manager("C:\\a", true, &RmQuery::Listed(Ok(vec![(4, "x".to_string())]))).unwrap(),
        vec![(4, "x".to_string())]
    );
    assert!(query_restart_manager_batch(0, &RmQuery::SessionFailed(1)).unwrap().is_empty());
}

#[test]
fn batches_split_and_join() {
    assert_eq!(batch_ranges(0), vec![]);
    assert_eq!(batch_ranges(500), vec![(0, 500)]);
    assert_eq!(batch_ranges(1201), vec![(0, 500), (500, 1000), (1000, 1201)]);
    let joined = batch_query_restart_manager(&vec![
        Ok(vec![(1, "a".to_string())]),
        Err("down".to_string()),
        Ok(vec![(2, "b".to_string()), (1, "a".to_string())]),
    ])
    .unwrap();
    assert_eq!(
        joined,
        vec![(1, "a".to_string()), (2, "b".to_string()), (1, "a".to_string())]
    );
}
