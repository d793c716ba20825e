use logseq_index::aggregates::Page;
use logseq_index::base::DomainError;
use logseq_index::services::{tally_file, SyncError};
use logseq_index::parser::{LogseqMarkdownParser, ParseError};
use logseq_index::repository::{InMemoryPageRepository, PageRepository};
use logseq_index::services::{
    FileChange, ImportProgressEvent, ImportService, ImportSummary, ScannedFile, SyncEvent, SyncRegistry,
    SyncService, SyncStats, SyncSummary,
};
use logseq_index::value_objects::{DirectoryProbe, ImportProgress, LogseqDirectoryPath, PageId};
use logseq_index::watcher::FileEventKind;

fn kb() -> LogseqDirectoryPath {
    let probe = DirectoryProbe { exists: true, is_dir: true, pages_is_dir: true, journals_is_dir: true };
    LogseqDirectoryPath::validate("/kb", &probe).unwrap()
}

#[test]
fn test_sync_stats() {
    let stats = SyncStats::default();
    assert_eq!(stats.files_created, 0);
    assert_eq!(stats.files_updated, 0);
    assert_eq!(stats.files_deleted, 0);
}

#[test]
fn import_summary_reports_errors() {
    let mut summary = ImportSummary::new(10);
    assert!(!summary.has_errors());
    summary.errors.push(("file1.md".to_string(), "error 1".to_string()));
    assert!(summary.has_errors());
}

#[test]
fn import_records_each_file_and_closes() {
    let mut service = ImportService::new(InMemoryPageRepository::new()).with_concurrency(2);
    assert_eq!(service.max_concurrent_files(), 2);
    let mut summary = ImportSummary::new(2);
    let mut progress = ImportProgress::new(2);
    let page = LogseqMarkdownParser::parse_content("- a", PageId::new("p1").unwrap(), "A".to_string());
    let ev = service.record_file("a.md".to_string(), page, &mut summary, &mut progress);
    match ev {
        ImportProgressEvent::FileProcessed { file_path, progress } => {
            assert_eq!(file_path, "a.md");
            assert_eq!(progress.files_processed(), 1);
        },
        _ => panic!("expected a progress event"),
    }
    let bad: Result<Page, ParseError> = Err(ParseError::InvalidMarkdown("x".to_string()));
    service.record_file("b.md".to_string(), bad, &mut summary, &mut progress);
    assert_eq!(summary.pages_imported, 1);
    assert_eq!(summary.errors, vec![("b.md".to_string(), "Invalid markdown structure: x".to_string())]);
    match service.finish(&summary, &progress) {
        ImportProgressEvent::Failed { error, files_processed } => {
            assert_eq!(error, "1 files failed to import");
            assert_eq!(files_processed, 2);
        },
        _ => panic!("expected a failure"),
    }
    assert_eq!(service.repository().len(), 1);
}

#[test]
fn import_without_errors_completes() {
    let service = ImportService::new(InMemoryPageRepository::new());
    assert_eq!(service.max_concurrent_files(), 4);
    let summary = ImportSummary::new(0);
    let progress = ImportProgress::new(0);
    assert!(matches!(
        service.finish(&summary, &progress),
        ImportProgressEvent::Completed { pages_imported: 0, duration_ms: 0 }
    ));
}

#[test]
fn registry_classifies_by_modification_time() {
    let mut reg = SyncRegistry::new();
    assert_eq!(reg.classify("/kb/pages/a.md", 5), FileChange::New);
    reg.record("/kb/pages/a.md", "a", 5);
    assert_eq!(reg.classify("/kb/pages/a.md", 5), FileChange::Unchanged);
    assert_eq!(reg.classify("/kb/pages/a.md", 4), FileChange::Unchanged);
    assert_eq!(reg.classify("/kb/pages/a.md", 6), FileChange::Updated);
    reg.record("/kb/pages/b.md", "b", 1);
    let stale = reg.stale_paths(&vec!["/kb/pages/b.md".to_string()]);
    assert_eq!(stale, vec!["/kb/pages/a.md".to_string()]);
    assert_eq!(reg.forget("/kb/pages/a.md"), Some("a".to_string()));
    assert_eq!(reg.forget("/kb/pages/a.md"), None);
    assert_eq!(reg.classify("/kb/pages/a.md", 5), FileChange::New);
}

#[test]
fn incremental_sync_creates_updates_and_deletes() {
    let mut service = SyncService::new(InMemoryPageRepository::new(), kb());

    let mut s1 = SyncSummary::new();
    let e1 = service.sync_file("/kb/pages/a.md", "a", 10, "- First block", &mut s1);
    let e2 = service.sync_file("/kb/pages/b.md", "b", 10, "- Another page", &mut s1);
    assert!(matches!(e1, Some(SyncEvent::FileCreated { .. })));
    assert!(matches!(e2, Some(SyncEvent::FileCreated { .. })));
    assert_eq!(s1.files_created, 2);
    let current = vec!["/kb/pages/a.md".to_string(), "/kb/pages/b.md".to_string()];
    assert!(service.handle_deletions(&current, &mut s1).is_empty());

    let mut s2 = SyncSummary::new();
    assert!(service.sync_file("/kb/pages/a.md", "a", 10, "", &mut s2).is_none());
    let e = service.sync_file("/kb/pages/b.md", "b", 11, "- Another page\n- More", &mut s2);
    assert!(matches!(e, Some(SyncEvent::FileUpdated { .. })));
    assert_eq!((s2.files_created, s2.files_updated, s2.files_unchanged), (0, 1, 1));

    let mut s3 = SyncSummary::new();
    assert!(service.sync_file("/kb/pages/b.md", "b", 11, "", &mut s3).is_none());
    let events = service.handle_deletions(&vec!["/kb/pages/b.md".to_string()], &mut s3);
    assert_eq!(events.len(), 1);
    assert_eq!((s3.files_deleted, s3.files_unchanged), (1, 1));
    assert_eq!(service.repository().len(), 1);
    assert!(service.repository().find_by_title("a").unwrap().is_none());
    assert!(matches!(s3.completed_event(), SyncEvent::SyncCompleted { files_created: 0, files_updated: 0, files_deleted: 1 }));
}

#[test]
fn unchanged_directory_syncs_to_nothing() {
    let mut service = SyncService::new(InMemoryPageRepository::new(), kb());
    let mut first = SyncSummary::new();
    service.sync_file("/kb/pages/a.md", "a", 3, "- x", &mut first);
    service.sync_file("/kb/journals/b.md", "b", 4, "- y", &mut first);
    let mut again = SyncSummary::new();
    assert!(service.sync_file("/kb/pages/a.md", "a", 3, "", &mut again).is_none());
    assert!(service.sync_file("/kb/journals/b.md", "b", 4, "", &mut again).is_none());
    let current = vec!["/kb/pages/a.md".to_string(), "/kb/journals/b.md".to_string()];
    assert!(service.handle_deletions(&current, &mut again).is_empty());
    assert_eq!(
        (again.files_created, again.files_updated, again.files_deleted, again.files_unchanged),
        (0, 0, 0, 2)
    );
}

#[test]
fn sync_reports_parse_failures() {
    let mut service = SyncService::new(InMemoryPageRepository::new(), kb());
    let mut s = SyncSummary::new();
    let e = service.sync_file("/kb/pages/bad.md", "bad", 1, "    - no parent", &mut s);
    match e {
        Some(SyncEvent::Error { file_path, error }) => {
            assert_eq!(file_path, "/kb/pages/bad.md");
            assert!(error.starts_with("Parse error: Invalid markdown structure"));
        },
        _ => panic!("expected an error event"),
    }
    assert_eq!(s.errors.len(), 1);
    assert_eq!(service.classify("/kb/pages/bad.md", 1), FileChange::New);
}

#[test]
fn watched_events_are_applied() {
    let mut service = SyncService::new(InMemoryPageRepository::new(), kb());
    let mut stats = SyncStats::default();
    let e = service.process_event(FileEventKind::Created, "/kb/pages/n.md", "n", 1, "- note", &mut stats);
    assert!(matches!(e, SyncEvent::FileCreated { .. }));
    let e = service.process_event(FileEventKind::Modified, "/kb/pages/n.md", "n", 2, "- note 2", &mut stats);
    assert!(matches!(e, SyncEvent::FileUpdated { .. }));
    let e = service.process_event(FileEventKind::Deleted, "/kb/pages/n.md", "n", 0, "", &mut stats);
    assert!(matches!(e, SyncEvent::FileDeleted { .. }));
    assert_eq!((stats.files_created, stats.files_updated, stats.files_deleted), (1, 1, 1));
    assert_eq!(service.repository().len(), 0);
}

#[test]
fn save_outcomes_are_counted_exactly() {
    let mut summary = ImportSummary::new(2);
    let mut progress = ImportProgress::new(2);
    tally_file("a.md".to_string(), Ok(()), &mut summary, &mut progress);
    tally_file("b.md".to_string(), Err("disk full".to_string()), &mut summary, &mut progress);
    assert_eq!(summary.pages_imported, 1);
    assert_eq!(summary.errors, vec![("b.md".to_string(), "disk full".to_string())]);
    assert_eq!(progress.files_processed(), 2);
}

#[test]
fn settling_a_file_follows_the_store_outcome() {
    let mut service = SyncService::new(InMemoryPageRepository::new(), kb());
    let mut s = SyncSummary::new();
    let e = service.settle_file("/kb/pages/a.md", "a", 1, Ok(true), &mut s);
    assert!(matches!(e, Some(SyncEvent::FileUpdated { .. })));
    let e = service.settle_file("/kb/pages/b.md", "b", 1, Ok(false), &mut s);
    assert!(matches!(e, Some(SyncEvent::FileCreated { .. })));
    let e = service.settle_file(
        "/kb/pages/c.md",
        "c",
        1,
        Err(SyncError::Repository(DomainError::InvalidOperation("down".to_string()))),
        &mut s,
    );
    match e {
        Some(SyncEvent::Error { error, .. }) => assert_eq!(error, "Repository error: Invalid operation: down"),
        _ => panic!("expected an error"),
    }
    assert_eq!((s.files_created, s.files_updated, s.errors.len()), (1, 1, 1));
    assert_eq!(service.classify("/kb/pages/a.md", 1), FileChange::Unchanged);
    assert_eq!(service.classify("/kb/pages/c.md", 1), FileChange::New);
}

#[test]
fn a_scan_of_an_unchanged_directory_changes_nothing() {
    use_scan();
}

fn scanned(path: &str, title: &str, modified: u128, content: &str) -> ScannedFile {
    ScannedFile { path: path.to_string(), title: title.to_string(), modified, content: content.to_string() }
}

fn use_scan() {
    let mut service = SyncService::new(InMemoryPageRepository::new(), kb());
    let mut first = SyncSummary::new();
    let files = vec![scanned("/kb/pages/a.md", "a", 5, "- x"), scanned("/kb/journals/b.md", "b", 6, "- y")];
    let events = service.sync_scan(&files, &mut first);
    assert_eq!(events.len(), 2);
    assert_eq!(first.files_created, 2);
    let mut again = SyncSummary::new();
    let same = vec![scanned("/kb/pages/a.md", "a", 5, ""), scanned("/kb/journals/b.md", "b", 6, "")];
    assert!(service.sync_scan(&same, &mut again).is_empty());
    assert_eq!(
        (again.files_created, again.files_updated, again.files_deleted, again.files_unchanged),
        (0, 0, 0, 2)
    );
    let mut third = SyncSummary::new();
    let fewer = vec![scanned("/kb/pages/a.md", "a", 7, "- x2")];
    let events = service.sync_scan(&fewer, &mut third);
    assert_eq!(events.len(), 2);
    assert_eq!((third.files_updated, third.files_deleted), (1, 1));
}
