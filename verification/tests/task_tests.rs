use lele_download::task::{
    restore_after_restart, speed_limit_bytes, DownloadConfig, DownloadSettings, DownloadStatus,
    DownloadTask, TaskChange, TaskTable,
};

fn task(id: &str, status: DownloadStatus) -> DownloadTask {
    let mut t = DownloadTask::new_pending(
        id.to_string(),
        format!("http://example.com/{}", id),
        format!("{}.bin", id),
        16,
        "2024-01-01T00:00:00+00:00".to_string(),
        format!("/tmp/{}.bin", id),
    );
    t.status = status;
    t
}

#[test]
fn status_names_round_trip() {
    for s in [
        DownloadStatus::Pending,
        DownloadStatus::Downloading,
        DownloadStatus::Paused,
        DownloadStatus::Completed,
        DownloadStatus::Failed,
    ] {
        assert_eq!(DownloadStatus::from_db_name(&s.db_name()), s);
    }
    assert_eq!(DownloadStatus::Completed.db_name(), "completed");
    assert_eq!(DownloadStatus::from_db_name("garbage"), DownloadStatus::Pending);
    assert_eq!(DownloadStatus::default(), DownloadStatus::Pending);
}

#[test]
fn config_defaults_and_clamping() {
    let c = DownloadConfig::default();
    assert_eq!((c.max_threads, c.max_concurrent, c.speed_limit_kb), (16, 3, 0));
    let c = DownloadConfig::with_limits(0, 99, 512);
    assert_eq!((c.max_threads, c.max_concurrent, c.speed_limit_kb), (1, 10, 512));
    let c = DownloadConfig::with_limits(64, 0, 0);
    assert_eq!((c.max_threads, c.max_concurrent), (32, 1));
    let c = DownloadConfig::with_limits(8, 4, 0);
    assert_eq!((c.max_threads, c.max_concurrent), (8, 4));
    assert_eq!(speed_limit_bytes(0), 0);
    assert_eq!(speed_limit_bytes(1), 1024);
    assert_eq!(speed_limit_bytes(u64::MAX), u64::MAX);
}

#[test]
fn settings_defaults() {
    let s = DownloadSettings::defaults_for("/home/u/Downloads".to_string());
    assert_eq!(s.max_threads, 16);
    assert_eq!(s.max_concurrent, 3);
    assert_eq!(s.download_dir, "/home/u/Downloads");
    assert!(s.auto_start && !s.auto_open_file && s.auto_open_folder && s.notifications);
    assert_eq!(s.speed_limit_kb, 0);
    let c = s.engine_config();
    assert_eq!((c.max_threads, c.max_concurrent), (16, 3));
}

#[test]
fn new_task_fields() {
    let t = task("a", DownloadStatus::Pending);
    assert_eq!(t.total_size, 0);
    assert_eq!(t.downloaded_size, 0);
    assert_eq!(t.retry_count, 0);
    assert_eq!(t.max_retries, 3);
    assert!(t.completed_at.is_none() && t.error.is_none());
}

#[test]
fn table_read_after_write() {
    let mut tb = TaskTable::new();
    tb.insert(task("a", DownloadStatus::Pending));
    tb.insert(task("b", DownloadStatus::Pending));
    assert_eq!(tb.get("a").unwrap().id, "a");
    assert!(tb.get("c").is_none());
    // storing under an existing id replaces
    let mut a2 = task("a", DownloadStatus::Paused);
    a2.total_size = 77;
    tb.insert(a2);
    assert_eq!(tb.all().len(), 2);
    assert_eq!(tb.get("a").unwrap().total_size, 77);
    assert_eq!(tb.get("b").unwrap().status, DownloadStatus::Pending);
}

#[test]
fn table_pause_cancel_remove() {
    let mut tb = TaskTable::new();
    tb.insert(task("a", DownloadStatus::Downloading));
    tb.insert(task("b", DownloadStatus::Downloading));
    assert!(tb.update("a", TaskChange::SetStatus(DownloadStatus::Paused)));
    assert!(!tb.update("zz", TaskChange::SetStatus(DownloadStatus::Paused)));
    assert_eq!(tb.get("a").unwrap().status, DownloadStatus::Paused);
    assert_eq!(tb.get("b").unwrap().status, DownloadStatus::Downloading);
    assert_eq!(tb.cancel("b"), Some("/tmp/b.bin".to_string()));
    let b = tb.get("b").unwrap();
    assert_eq!(b.status, DownloadStatus::Failed);
    assert_eq!(b.error.as_deref(), Some("Cancelled by user"));
    assert_eq!(tb.cancel("nope"), None);
    let removed = tb.remove("a").unwrap();
    assert_eq!(removed.id, "a");
    assert!(tb.get("a").is_none());
    assert!(tb.remove("a").is_none());
    assert_eq!(tb.all().len(), 1);
}

#[test]
fn table_begin_and_complete() {
    let mut tb = TaskTable::new();
    assert_eq!(tb.begin("x").err(), Some("Task not found".to_string()));
    let mut t = task("x", DownloadStatus::Pending);
    t.total_size = 500;
    tb.insert(t);
    let started = tb.begin("x").unwrap();
    assert_eq!(started.status, DownloadStatus::Pending);
    assert_eq!(tb.get("x").unwrap().status, DownloadStatus::Downloading);
    tb.update("x", TaskChange::SetDownloaded(120));
    assert_eq!(tb.get("x").unwrap().downloaded_size, 120);
    tb.update("x", TaskChange::SetTotalAndDownloaded(900, 300));
    let x = tb.get("x").unwrap();
    assert_eq!((x.total_size, x.downloaded_size), (900, 300));
    tb.update("x", TaskChange::Complete("2024-01-02T00:00:00+00:00".to_string()));
    let x = tb.get("x").unwrap();
    assert_eq!(x.status, DownloadStatus::Completed);
    assert_eq!(x.downloaded_size, 900);
    assert_eq!(x.completed_at.as_deref(), Some("2024-01-02T00:00:00+00:00"));
    tb.update("x", TaskChange::Fail("boom".to_string()));
    assert_eq!(tb.get("x").unwrap().error.as_deref(), Some("boom"));
    tb.update("x", TaskChange::SetTotal(5));
    assert_eq!(tb.get("x").unwrap().total_size, 5);
}

#[test]
fn table_clear_completed() {
    let mut tb = TaskTable::new();
    tb.insert(task("a", DownloadStatus::Completed));
    tb.insert(task("b", DownloadStatus::Failed));
    tb.insert(task("c", DownloadStatus::Completed));
    tb.insert(task("d", DownloadStatus::Paused));
    tb.clear_completed();
    let ids: Vec<String> = tb.all().into_iter().map(|t| t.id).collect();
    assert_eq!(ids, vec!["b".to_string(), "d".to_string()]);
}

#[test]
fn restart_marks_running_tasks_failed() {
    for s in [DownloadStatus::Downloading, DownloadStatus::Pending] {
        let (t, changed) = restore_after_restart(task("r", s));
        assert!(changed);
        assert_eq!(t.status, DownloadStatus::Failed);
        assert_eq!(t.error.as_deref(), Some("应用重启，下载已中断"));
    }
    for s in [DownloadStatus::Paused, DownloadStatus::Completed, DownloadStatus::Failed] {
        let (t, changed) = restore_after_restart(task("r", s));
        assert!(!changed);
        assert_eq!(t.status, s);
        assert!(t.error.is_none());
    }
}

#[test]
fn table_ids_stay_distinct() {
    let mut tb = TaskTable::new();
    tb.insert(task("a", DownloadStatus::Completed));
    tb.insert(task("b", DownloadStatus::Pending));
    // storing a task with a known id replaces it rather than adding a second one
    tb.insert(task("a", DownloadStatus::Paused));
    let ids: Vec<String> = tb.all().into_iter().map(|t| t.id).collect();
    assert_eq!(ids, vec!["a".to_string(), "b".to_string()]);
    tb.clear_completed();
    assert_eq!(tb.get("a").unwrap().status, DownloadStatus::Paused);
    tb.update("a", TaskChange::SetStatus(DownloadStatus::Completed));
    tb.clear_completed();
    assert!(tb.get("a").is_none());
    assert_eq!(tb.all().len(), 1);
}
