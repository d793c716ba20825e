use logseq_index::base::DomainEvent;
use logseq_index::events::{
    BlockAdded, BlockRemoved, BlockUpdated, DomainEventEnum, FileCreatedEvent, FileDeletedEvent,
    FileProcessed, FileUpdatedEvent, ImportCompleted, ImportStarted, PageCreated, PageDeleted,
    PageUpdated, SyncCompleted, SyncStarted,
};
use logseq_index::value_objects::{BlockId, PageId};

#[test]
fn test_page_created_event() {
    let page_id = PageId::new("page-1").unwrap();
    let event = PageCreated { page_id: page_id.clone(), title: "Test Page".to_string() };

    assert_eq!(event.event_type(), "PageCreated");
    assert_eq!(event.aggregate_id(), "page-1");
}

#[test]
fn test_page_updated_event() {
    let page_id = PageId::new("page-1").unwrap();
    let event = PageUpdated { page_id: page_id.clone(), title: Some("Updated Title".to_string()) };

    assert_eq!(event.event_type(), "PageUpdated");
    assert_eq!(event.aggregate_id(), "page-1");
}

#[test]
fn test_page_deleted_event() {
    let page_id = PageId::new("page-1").unwrap();
    let event = PageDeleted { page_id: page_id.clone() };

    assert_eq!(event.event_type(), "PageDeleted");
    assert_eq!(event.aggregate_id(), "page-1");
}

#[test]
fn test_block_added_event() {
    let page_id = PageId::new("page-1").unwrap();
    let block_id = BlockId::new("block-1").unwrap();
    let event = BlockAdded { page_id: page_id.clone(), block_id: block_id.clone(), parent_block_id: None };

    assert_eq!(event.event_type(), "BlockAdded");
    assert_eq!(event.aggregate_id(), "page-1");
}

#[test]
fn test_block_updated_event() {
    let page_id = PageId::new("page-1").unwrap();
    let block_id = BlockId::new("block-1").unwrap();
    let event = BlockUpdated { page_id: page_id.clone(), block_id: block_id.clone() };

    assert_eq!(event.event_type(), "BlockUpdated");
    assert_eq!(event.aggregate_id(), "page-1");
}

#[test]
fn test_block_removed_event() {
    let page_id = PageId::new("page-1").unwrap();
    let block_id = BlockId::new("block-1").unwrap();
    let event = BlockRemoved { page_id: page_id.clone(), block_id: block_id.clone() };

    assert_eq!(event.event_type(), "BlockRemoved");
    assert_eq!(event.aggregate_id(), "page-1");
}

#[test]
fn test_import_started_event() {
    let event = ImportStarted { directory_path: "/test/directory".to_string(), total_files: 10 };

    assert_eq!(event.event_type(), "ImportStarted");
    assert_eq!(event.aggregate_id(), "/test/directory");
}

#[test]
fn test_file_processed_event() {
    let page_id = PageId::new("page-1").unwrap();
    let event = FileProcessed {
        directory_path: "/test/directory".to_string(),
        file_path: "/test/directory/pages/test.md".to_string(),
        page_id,
        files_processed: 5,
        total_files: 10,
    };

    assert_eq!(event.event_type(), "FileProcessed");
    assert_eq!(event.aggregate_id(), "/test/directory");
}

#[test]
fn test_import_completed_event() {
    let event = ImportCompleted {
        directory_path: "/test/directory".to_string(),
        pages_imported: 10,
        duration_ms: 5000,
    };

    assert_eq!(event.event_type(), "ImportCompleted");
    assert_eq!(event.aggregate_id(), "/test/directory");
}

#[test]
fn test_sync_events() {
    let page_id = PageId::new("page-1").unwrap();

    let sync_started = SyncStarted { directory_path: "/test/directory".to_string() };
    assert_eq!(sync_started.event_type(), "SyncStarted");

    let file_created = FileCreatedEvent {
        directory_path: "/test/directory".to_string(),
        file_path: "/test/directory/pages/new.md".to_string(),
        page_id: page_id.clone(),
    };
    assert_eq!(file_created.event_type(), "FileCreated");

    let file_updated = FileUpdatedEvent {
        directory_path: "/test/directory".to_string(),
        file_path: "/test/directory/pages/updated.md".to_string(),
        page_id: page_id.clone(),
    };
    assert_eq!(file_updated.event_type(), "FileUpdated");

    let file_deleted = FileDeletedEvent {
        directory_path: "/test/directory".to_string(),
        file_path: "/test/directory/pages/deleted.md".to_string(),
        page_id,
    };
    assert_eq!(file_deleted.event_type(), "FileDeleted");

    let sync_completed = SyncCompleted {
        directory_path: "/test/directory".to_string(),
        files_created: 1,
        files_updated: 2,
        files_deleted: 1,
    };
    assert_eq!(sync_completed.event_type(), "SyncCompleted");
}

#[test]
fn wrapped_events_report_their_kind_and_subject() {
    let e = DomainEventEnum::PageDeleted(PageDeleted { page_id: PageId::new("p9").unwrap() });
    assert_eq!(e.event_type(), "PageDeleted");
    assert_eq!(e.aggregate_id(), "p9");
    let s = DomainEventEnum::SyncStarted(SyncStarted { directory_path: "/kb".to_string() });
    assert_eq!(s.event_type(), "SyncStarted");
    assert_eq!(s.aggregate_id(), "/kb");
}
