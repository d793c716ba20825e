use logseq_index::watcher::{FileEvent, FileEventKind};

#[test]
fn test_file_event_is_markdown() {
    let event = FileEvent { path: "/test/file.md".to_string(), kind: FileEventKind::Created };
    assert!(event.is_markdown());

    let event2 = FileEvent { path: "/test/file.txt".to_string(), kind: FileEventKind::Created };
    assert!(!event2.is_markdown());
}

#[test]
fn test_file_event_is_in_logseq_dirs() {
    let event = FileEvent { path: "/logseq/pages/file.md".to_string(), kind: FileEventKind::Created };
    assert!(event.is_in_logseq_dirs());

    let event2 = FileEvent { path: "/logseq/journals/2025_10_11.md".to_string(), kind: FileEventKind::Created };
    assert!(event2.is_in_logseq_dirs());

    let event3 = FileEvent { path: "/logseq/assets/image.png".to_string(), kind: FileEventKind::Created };
    assert!(!event3.is_in_logseq_dirs());
}

#[test]
fn relevant_events_are_markdown_inside_the_trees() {
    let yes = FileEvent { path: "/kb/pages/sub/x.md".to_string(), kind: FileEventKind::Modified };
    assert!(yes.is_relevant());
    let no = FileEvent { path: "/kb/pages/x.markdown".to_string(), kind: FileEventKind::Deleted };
    assert!(!no.is_relevant());
    let hidden = FileEvent { path: "/kb/.md".to_string(), kind: FileEventKind::Created };
    assert!(!hidden.is_markdown());
}

#[test]
fn scan_skips_hidden_and_logseq_directories() {
    use_predicates();
}

fn use_predicates() {
    assert!(!logseq_index::watcher::is_traversed_dir(".git"));
    assert!(!logseq_index::watcher::is_traversed_dir("logseq"));
    assert!(logseq_index::watcher::is_traversed_dir("logseq2"));
    assert!(logseq_index::watcher::is_traversed_dir("pages"));
    assert!(logseq_index::watcher::is_markdown_file("/kb/pages/a.md"));
    assert!(!logseq_index::watcher::is_markdown_file("/kb/pages/a.txt"));
}
