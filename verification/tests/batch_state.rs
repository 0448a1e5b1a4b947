use lumencite::batch_status::{BatchKind, BatchState, Progress};

#[test]
fn kind_strings_are_the_contract_with_the_frontend() {
    assert_eq!(BatchKind::Build.as_str(), "build");
    assert_eq!(BatchKind::Rebuild.as_str(), "rebuild");
    assert_eq!(BatchKind::Rederive.as_str(), "rederive");
    assert_eq!(BatchKind::Gc.as_str(), "gc");
    assert_eq!(BatchKind::VisionAltText.as_str(), "vision_alt_text");
    assert_eq!(BatchKind::TexFetch.as_str(), "tex_fetch");
    assert_eq!(BatchKind::Ocr.as_str(), "ocr");
}

#[test]
fn mark_appears_while_alive_and_disappears_on_drop() {
    let mut s = BatchState::new();
    assert!(!s.snapshot().running.contains(&BatchKind::Build));
    s.mark_running(BatchKind::Build);
    assert!(s.snapshot().running.contains(&BatchKind::Build));
    s.clear_running(BatchKind::Build);
    assert!(!s.snapshot().running.contains(&BatchKind::Build));
}

#[test]
fn two_kinds_can_be_running_at_once() {
    let mut s = BatchState::new();
    s.mark_running(BatchKind::VisionAltText);
    s.mark_running(BatchKind::Rebuild);
    let running = s.snapshot().running;
    assert_eq!(running, vec![BatchKind::Rebuild, BatchKind::VisionAltText]);
}

#[test]
fn progress_is_visible_while_running_and_cleared_after() {
    let mut s = BatchState::new();
    s.mark_running(BatchKind::Gc);
    s.set_progress(BatchKind::Gc, 3, 10);
    assert_eq!(s.snapshot().progress, vec![(BatchKind::Gc, Progress { done: 3, total: 10 })]);
    s.clear_running(BatchKind::Gc);
    assert!(s.snapshot().progress.is_empty());
}

#[test]
fn a_second_run_does_not_start_from_the_previous_progress() {
    let mut s = BatchState::new();
    s.mark_running(BatchKind::TexFetch);
    s.set_progress(BatchKind::TexFetch, 7, 7);
    s.clear_running(BatchKind::TexFetch);
    s.mark_running(BatchKind::TexFetch);
    assert!(s.snapshot().progress.is_empty());
}

#[test]
fn dropping_one_mark_leaves_the_other_kinds_running() {
    let mut s = BatchState::new();
    s.mark_running(BatchKind::Build);
    s.mark_running(BatchKind::VisionAltText);
    s.set_progress(BatchKind::Build, 1, 9);
    s.clear_running(BatchKind::VisionAltText);
    let snap = s.snapshot();
    assert_eq!(snap.running, vec![BatchKind::Build]);
    assert_eq!(snap.progress, vec![(BatchKind::Build, Progress { done: 1, total: 9 })]);
}

#[test]
fn results_are_kept_and_reading_does_not_consume_them() {
    let mut s = BatchState::new();
    s.record_success(BatchKind::Build, "2026-01-01T00:00:00+00:00".to_string(), Some("{\"total\":138,\"failed\":2}".to_string()));
    let a = s.snapshot().last.expect("kept");
    let b = s.snapshot().last.expect("still kept");
    assert_eq!(a.kind, BatchKind::Build);
    assert_eq!(a.result.as_deref(), Some("{\"total\":138,\"failed\":2}"));
    assert!(a.error.is_none());
    assert_eq!(a.finished_at, b.finished_at);
    s.record_failure(BatchKind::VisionAltText, "2026-01-02T00:00:00+00:00".to_string(), "already_running");
    let last = s.snapshot().last.unwrap();
    assert_eq!(last.kind, BatchKind::VisionAltText);
    assert_eq!(last.error.as_deref(), Some("already_running"));
    assert!(last.result.is_none());
}

#[test]
fn success_keeps_the_command_return_value_verbatim() {
    let mut s = BatchState::new();
    s.record_success(
        BatchKind::Build,
        "2024-01-01T00:00:00Z".to_string(),
        Some("{\"total\":138,\"failed\":2}".to_string()),
    );
    let last = s.snapshot().last.expect("the latest result stays");
    assert_eq!(last.kind, BatchKind::Build);
    let v: serde_json::Value = serde_json::from_str(last.result.as_ref().unwrap()).unwrap();
    assert_eq!(v["failed"], 2);
    assert_eq!(v["total"], 138);
    assert!(last.error.is_none());
}

#[test]
fn failure_keeps_the_error_and_no_result() {
    let mut s = BatchState::new();
    s.record_failure(BatchKind::VisionAltText, "2024-01-01T00:00:00Z".to_string(), "already_running");
    let last = s.snapshot().last.expect("the latest result stays");
    assert_eq!(last.kind, BatchKind::VisionAltText);
    assert_eq!(last.error.as_deref(), Some("already_running"));
    assert!(last.result.is_none());
}

#[test]
fn snapshot_does_not_consume_the_last_result() {
    let mut s = BatchState::new();
    s.record_success(BatchKind::Rederive, "2024-02-02T10:00:00Z".to_string(), Some("{\"total\":1}".to_string()));
    let a = s.snapshot().last.expect("first read");
    let b = s.snapshot().last.expect("second read too");
    assert_eq!(a.finished_at, b.finished_at);
}
