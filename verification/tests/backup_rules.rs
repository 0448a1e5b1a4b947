use lumencite::backup::{
    backup_stem, backups_to_prune, is_backup_due, is_backup_file, is_leftover_work_file,
    is_stale_work_file, skip_if_vanished, vacuum_into_sql, work_names, IoFailure, SkippedEntries,
    AUTO_INTERVAL_SECS, SKIPPED_SAMPLE_MAX, backup_due_from_record, order_newest_first,
};
use std::io;

fn failure(e: &io::Error) -> IoFailure {
    IoFailure { not_found: e.kind() == io::ErrorKind::NotFound, message: e.to_string() }
}

#[test]
fn only_a_vanished_entry_is_skipped() {
    let mut skipped = SkippedEntries::new();
    assert!(skip_if_vanished(Ok(()), "attachments/1/a.pdf", &mut skipped).is_ok());
    assert_eq!(skipped.count, 0, "成功は何も記録しない");

    let gone = io::Error::new(io::ErrorKind::NotFound, "gone");
    assert!(
        skip_if_vanished(Err(failure(&gone)), "attachments/1/b.pdf", &mut skipped).is_ok(),
        "走査中に消えたエントリでバックアップ全体を落とさない"
    );
    assert_eq!(skipped.count, 1);
    assert!(skipped.names[0].starts_with("attachments/1/b.pdf"));

    let denied = io::Error::new(io::ErrorKind::PermissionDenied, "denied");
    assert!(
        skip_if_vanished(Err(failure(&denied)), "attachments/1/c.pdf", &mut skipped).is_err(),
        "消えた以外の失敗は握り潰さない（欠けたまま成功させない）"
    );
    assert_eq!(skipped.count, 1, "失敗させた分は skip に数えない");
}

#[test]
fn a_vanished_work_file_is_skipped_without_crying_wolf() {
    let mut skipped = SkippedEntries::new();
    let gone = io::Error::new(io::ErrorKind::NotFound, "renamed away");
    assert!(skip_if_vanished(
        Err(failure(&gone)),
        "attachments/1/.lcir/7/abcd/fig-p001-00.png.tmp",
        &mut skipped
    )
    .is_ok());
    assert_eq!(skipped.count, 0, "作業ファイルの消滅は欠損ではない");

    let gone = io::Error::new(io::ErrorKind::NotFound, "gone");
    assert!(skip_if_vanished(
        Err(failure(&gone)),
        "attachments/1/.lcir/7/abcd/fig-p001-00.png",
        &mut skipped
    )
    .is_ok());
    assert_eq!(skipped.count, 1);
}

#[test]
fn the_report_keeps_the_total_when_the_list_is_capped() {
    let mut skipped = SkippedEntries::new();
    let n = SKIPPED_SAMPLE_MAX + 3;
    for i in 0..n {
        skipped.note(
            &format!("attachments/1/f{i}.pdf"),
            &failure(&io::Error::new(io::ErrorKind::NotFound, "gone")),
        );
    }
    assert_eq!(skipped.count, n);
    assert_eq!(skipped.names.len(), SKIPPED_SAMPLE_MAX);
    let report = skipped.report();
    assert!(report.contains(&n.to_string()), "総数が出る: {report}");
    assert!(report.contains("... and 3 more"), "省略が分かる: {report}");
}

#[test]
fn the_record_line_carries_the_error_text() {
    let mut skipped = SkippedEntries::new();
    skipped.note("attachments/2/x.pdf", &failure(&io::Error::new(io::ErrorKind::NotFound, "gone")));
    assert_eq!(skipped.names[0], "attachments/2/x.pdf\t(gone)");
    let report = skipped.report();
    assert!(report.starts_with("LumenCite backup: 1 entry/entries could not be archived"));
    assert!(report.ends_with("\n\nattachments/2/x.pdf\t(gone)\n"));
}

#[test]
fn backup_and_work_file_names() {
    assert!(is_backup_file("lumencite-20260101-000000.zip"));
    assert!(is_backup_file("lumencite-20260101-000001.db"));
    assert!(!is_backup_file("lumencite-20260101-000000.zip.partial"));
    assert!(!is_backup_file("other-20260101.zip"));
    for f in [
        ".vacuum-lumencite-20260101-000000.db.tmp",
        ".vacuum-lumencite-20260101-000000.db.tmp-journal",
        "lumencite-20260101-000000.zip.partial",
        "lumencite-20260101-000002.db-journal",
    ] {
        assert!(is_leftover_work_file(f), "{f}");
        assert!(!is_backup_file(f), "{f}");
    }
    assert!(!is_leftover_work_file("lumencite-20260101-000000.zip"));
}

#[test]
fn a_run_names_its_files_from_the_stem() {
    let stem = backup_stem("20260101-120000", 0);
    assert_eq!(stem, "lumencite-20260101-120000");
    assert_eq!(backup_stem("20260101-120000", 2), "lumencite-20260101-120000-2");
    let (archive, partial, vacuum) = work_names(&stem);
    assert_eq!(archive, "lumencite-20260101-120000.zip");
    assert_eq!(partial, "lumencite-20260101-120000.zip.partial");
    assert_eq!(vacuum, ".vacuum-lumencite-20260101-120000.db.tmp");
    assert!(is_backup_file(&archive) && !is_leftover_work_file(&archive));
    assert!(is_leftover_work_file(&partial) && !is_backup_file(&partial));
    assert!(is_leftover_work_file(&vacuum) && !is_backup_file(&vacuum));
}

#[test]
fn vacuum_sql_doubles_single_quotes() {
    assert_eq!(vacuum_into_sql("/tmp/it's/x.db"), "VACUUM INTO '/tmp/it''s/x.db'");
}

#[test]
fn automatic_backup_is_due_when_unknown_old_or_in_the_future() {
    assert!(is_backup_due(None, AUTO_INTERVAL_SECS));
    assert!(is_backup_due(Some(AUTO_INTERVAL_SECS), AUTO_INTERVAL_SECS));
    assert!(!is_backup_due(Some(60), AUTO_INTERVAL_SECS));
    assert!(is_backup_due(Some(-5), AUTO_INTERVAL_SECS));
}

#[test]
fn only_stale_work_files_are_swept() {
    assert!(is_stale_work_file(".vacuum-lumencite-x.db.tmp", Some(7200)));
    assert!(!is_stale_work_file(".vacuum-lumencite-x.db.tmp", Some(10)));
    assert!(!is_stale_work_file(".vacuum-lumencite-x.db.tmp", None));
    assert!(!is_stale_work_file("lumencite-x.zip", Some(7200)));
}

#[test]
fn pruning_keeps_the_newest_backups() {
    let files = vec![
        ("lumencite-a.zip".to_string(), 30i128),
        ("notes.txt".to_string(), 99i128),
        ("lumencite-b.zip".to_string(), 10i128),
        ("lumencite-c.db".to_string(), 20i128),
        ("lumencite-d.zip".to_string(), 10i128),
    ];
    assert_eq!(backups_to_prune(&files, 2), vec!["lumencite-b.zip", "lumencite-d.zip"]);
    assert_eq!(backups_to_prune(&files, 3), vec!["lumencite-d.zip"]);
    assert!(backups_to_prune(&files, 14).is_empty());
}

#[test]
fn the_due_check_reads_the_recorded_time() {
    // 2024-01-01T00:00:00Z
    let t0: i64 = 1_704_067_200;
    let rec = Some("2024-01-01T09:00:00+09:00".to_string());
    assert!(!backup_due_from_record(&rec, t0 + 3600, 0, 7200));
    assert!(backup_due_from_record(&rec, t0 + 7200, 0, 7200));
    assert!(!backup_due_from_record(&rec, t0 + 7199, 999_999_999, 7200));
    assert!(backup_due_from_record(&rec, t0 - 1, 0, 7200));
    assert!(backup_due_from_record(&None, t0, 0, 7200));
    assert!(backup_due_from_record(&Some("yesterday".to_string()), t0, 0, 7200));
    let half = Some("2024-01-01T00:00:00.5Z".to_string());
    assert!(!backup_due_from_record(&half, t0 + 7200, 400_000_000, 7200));
    assert!(backup_due_from_record(&half, t0 + 7200, 500_000_000, 7200));
}

#[test]
fn backups_are_listed_newest_first() {
    let times: Vec<String> = ["2024-01-02 10:00:00", "2024-01-03 09:00:00", "2024-01-02 10:00:00", "2023-12-31 23:59:59"]
        .iter()
        .map(|s| s.to_string())
        .collect();
    assert_eq!(order_newest_first(&times), vec![1, 0, 2, 3]);
    assert!(order_newest_first(&Vec::new()).is_empty());
}
