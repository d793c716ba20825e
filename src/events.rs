//! Events that record what happened to pages and to import and sync runs.

use crate::base::DomainEvent;
use crate::value_objects::{BlockId, PageId};
use vstd::prelude::*;

verus! {

/// Emitted when a new page is created.
#[derive(Debug, Clone)]
pub struct PageCreated {
    pub page_id: PageId,
    pub title: String,
}

impl DomainEvent for PageCreated {
    open spec fn kind_name(&self) -> Seq<char> {
        seq!['P', 'a', 'g', 'e', 'C', 'r', 'e', 'a', 't', 'e', 'd']
    }

    open spec fn subject(&self) -> Seq<char> {
        self.page_id@
    }

    fn event_type(&self) -> (r: &'static str) {
        proof {
            reveal_strlit("PageCreated");
        }
        "PageCreated"
    }

    fn aggregate_id(&self) -> (r: String) {
        self.page_id.as_str().to_string()
    }
}

/// Emitted when a page is updated.
#[derive(Debug, Clone)]
pub struct PageUpdated {
    pub page_id: PageId,
    pub title: Option<String>,
}

impl DomainEvent for PageUpdated {
    open spec fn kind_name(&self) -> Seq<char> {
        seq!['P', 'a', 'g', 'e', 'U', 'p', 'd', 'a', 't', 'e', 'd']
    }

    open spec fn subject(&self) -> Seq<char> {
        self.page_id@
    }

    fn event_type(&self) -> (r: &'static str) {
        proof {
            reveal_strlit("PageUpdated");
        }
        "PageUpdated"
    }

    fn aggregate_id(&self) -> (r: String) {
        self.page_id.as_str().to_string()
    }
}

/// Emitted when a page is deleted.
#[derive(Debug, Clone)]
pub struct PageDeleted {
    pub page_id: PageId,
}

impl DomainEvent for PageDeleted {
    open spec fn kind_name(&self) -> Seq<char> {
        seq!['P', 'a', 'g', 'e', 'D', 'e', 'l', 'e', 't', 'e', 'd']
    }

    open spec fn subject(&self) -> Seq<char> {
        self.page_id@
    }

    fn event_type(&self) -> (r: &'static str) {
        proof {
            reveal_strlit("PageDeleted");
        }
        "PageDeleted"
    }

    fn aggregate_id(&self) -> (r: String) {
        self.page_id.as_str().to_string()
    }
}

/// Emitted when a block is added to a page.
#[derive(Debug, Clone)]
pub struct BlockAdded {
    pub page_id: PageId,
    pub block_id: BlockId,
    pub parent_block_id: Option<BlockId>,
}

impl DomainEvent for BlockAdded {
    open spec fn kind_name(&self) -> Seq<char> {
        seq!['B', 'l', 'o', 'c', 'k', 'A', 'd', 'd', 'e', 'd']
    }

    open spec fn subject(&self) -> Seq<char> {
        self.page_id@
    }

    fn event_type(&self) -> (r: &'static str) {
        proof {
            reveal_strlit("BlockAdded");
        }
        "BlockAdded"
    }

    fn aggregate_id(&self) -> (r: String) {
        self.page_id.as_str().to_string()
    }
}

/// Emitted when a block is updated.
#[derive(Debug, Clone)]
pub struct BlockUpdated {
    pub page_id: PageId,
    pub block_id: BlockId,
}

impl DomainEvent for BlockUpdated {
    open spec fn kind_name(&self) -> Seq<char> {
        seq!['B', 'l', 'o', 'c', 'k', 'U', 'p', 'd', 'a', 't', 'e', 'd']
    }

    open spec fn subject(&self) -> Seq<char> {
        self.page_id@
    }

    fn event_type(&self) -> (r: &'static str) {
        proof {
            reveal_strlit("BlockUpdated");
        }
        "BlockUpdated"
    }

    fn aggregate_id(&self) -> (r: String) {
        self.page_id.as_str().to_string()
    }
}

/// Emitted when a block is removed from a page.
#[derive(Debug, Clone)]
pub struct BlockRemoved {
    pub page_id: PageId,
    pub block_id: BlockId,
}

impl DomainEvent for BlockRemoved {
    open spec fn kind_name(&self) -> Seq<char> {
        seq!['B', 'l', 'o', 'c', 'k', 'R', 'e', 'm', 'o', 'v', 'e', 'd']
    }

    open spec fn subject(&self) -> Seq<char> {
        self.page_id@
    }

    fn event_type(&self) -> (r: &'static str) {
        proof {
            reveal_strlit("BlockRemoved");
        }
        "BlockRemoved"
    }

    fn aggregate_id(&self) -> (r: String) {
        self.page_id.as_str().to_string()
    }
}

/// Emitted when an import starts.
#[derive(Debug, Clone)]
pub struct ImportStarted {
    pub directory_path: String,
    pub total_files: usize,
}

impl DomainEvent for ImportStarted {
    open spec fn kind_name(&self) -> Seq<char> {
        seq!['I', 'm', 'p', 'o', 'r', 't', 'S', 't', 'a', 'r', 't', 'e', 'd']
    }

    open spec fn subject(&self) -> Seq<char> {
        self.directory_path@
    }

    fn event_type(&self) -> (r: &'static str) {
        proof {
            reveal_strlit("ImportStarted");
        }
        "ImportStarted"
    }

    fn aggregate_id(&self) -> (r: String) {
        self.directory_path.clone()
    }
}

/// Emitted when an import has processed a file.
#[derive(Debug, Clone)]
pub struct FileProcessed {
    pub directory_path: String,
    pub file_path: String,
    pub page_id: PageId,
    pub files_processed: usize,
    pub total_files: usize,
}

impl DomainEvent for FileProcessed {
    open spec fn kind_name(&self) -> Seq<char> {
        seq!['F', 'i', 'l', 'e', 'P', 'r', 'o', 'c', 'e', 's', 's', 'e', 'd']
    }

    open spec fn subject(&self) -> Seq<char> {
        self.directory_path@
    }

    fn event_type(&self) -> (r: &'static str) {
        proof {
            reveal_strlit("FileProcessed");
        }
        "FileProcessed"
    }

    fn aggregate_id(&self) -> (r: String) {
        self.directory_path.clone()
    }
}

/// Emitted when an import completes.
#[derive(Debug, Clone)]
pub struct ImportCompleted {
    pub directory_path: String,
    pub pages_imported: usize,
    pub duration_ms: u64,
}

impl DomainEvent for ImportCompleted {
    open spec fn kind_name(&self) -> Seq<char> {
        seq!['I', 'm', 'p', 'o', 'r', 't', 'C', 'o', 'm', 'p', 'l', 'e', 't', 'e', 'd']
    }

    open spec fn subject(&self) -> Seq<char> {
        self.directory_path@
    }

    fn event_type(&self) -> (r: &'static str) {
        proof {
            reveal_strlit("ImportCompleted");
        }
        "ImportCompleted"
    }

    fn aggregate_id(&self) -> (r: String) {
        self.directory_path.clone()
    }
}

/// Emitted when an import ends with errors.
#[derive(Debug, Clone)]
pub struct ImportFailed {
    pub directory_path: String,
    pub error: String,
    pub files_processed: usize,
}

impl DomainEvent for ImportFailed {
    open spec fn kind_name(&self) -> Seq<char> {
        seq!['I', 'm', 'p', 'o', 'r', 't', 'F', 'a', 'i', 'l', 'e', 'd']
    }

    open spec fn subject(&self) -> Seq<char> {
        self.directory_path@
    }

    fn event_type(&self) -> (r: &'static str) {
        proof {
            reveal_strlit("ImportFailed");
        }
        "ImportFailed"
    }

    fn aggregate_id(&self) -> (r: String) {
        self.directory_path.clone()
    }
}

/// Emitted when a sync starts.
#[derive(Debug, Clone)]
pub struct SyncStarted {
    pub directory_path: String,
}

impl DomainEvent for SyncStarted {
    open spec fn kind_name(&self) -> Seq<char> {
        seq!['S', 'y', 'n', 'c', 'S', 't', 'a', 'r', 't', 'e', 'd']
    }

    open spec fn subject(&self) -> Seq<char> {
        self.directory_path@
    }

    fn event_type(&self) -> (r: &'static str) {
        proof {
            reveal_strlit("SyncStarted");
        }
        "SyncStarted"
    }

    fn aggregate_id(&self) -> (r: String) {
        self.directory_path.clone()
    }
}

/// Emitted when a new file has been synced.
#[derive(Debug, Clone)]
pub struct FileCreatedEvent {
    pub directory_path: String,
    pub file_path: String,
    pub page_id: PageId,
}

impl DomainEvent for FileCreatedEvent {
    open spec fn kind_name(&self) -> Seq<char> {
        seq!['F', 'i', 'l', 'e', 'C', 'r', 'e', 'a', 't', 'e', 'd']
    }

    open spec fn subject(&self) -> Seq<char> {
        self.directory_path@
    }

    fn event_type(&self) -> (r: &'static str) {
        proof {
            reveal_strlit("FileCreated");
        }
        "FileCreated"
    }

    fn aggregate_id(&self) -> (r: String) {
        self.directory_path.clone()
    }
}

/// Emitted when a changed file has been synced.
#[derive(Debug, Clone)]
pub struct FileUpdatedEvent {
    pub directory_path: String,
    pub file_path: String,
    pub page_id: PageId,
}

impl DomainEvent for FileUpdatedEvent {
    open spec fn kind_name(&self) -> Seq<char> {
        seq!['F', 'i', 'l', 'e', 'U', 'p', 'd', 'a', 't', 'e', 'd']
    }

    open spec fn subject(&self) -> Seq<char> {
        self.directory_path@
    }

    fn event_type(&self) -> (r: &'static str) {
        proof {
            reveal_strlit("FileUpdated");
        }
        "FileUpdated"
    }

    fn aggregate_id(&self) -> (r: String) {
        self.directory_path.clone()
    }
}

/// Emitted when a removed file has been synced.
#[derive(Debug, Clone)]
pub struct FileDeletedEvent {
    pub directory_path: String,
    pub file_path: String,
    pub page_id: PageId,
}

impl DomainEvent for FileDeletedEvent {
    open spec fn kind_name(&self) -> Seq<char> {
        seq!['F', 'i', 'l', 'e', 'D', 'e', 'l', 'e', 't', 'e', 'd']
    }

    open spec fn subject(&self) -> Seq<char> {
        self.directory_path@
    }

    fn event_type(&self) -> (r: &'static str) {
        proof {
            reveal_strlit("FileDeleted");
        }
        "FileDeleted"
    }

    fn aggregate_id(&self) -> (r: String) {
        self.directory_path.clone()
    }
}

/// Emitted when a sync completes.
#[derive(Debug, Clone)]
pub struct SyncCompleted {
    pub directory_path: String,
    pub files_created: usize,
    pub files_updated: usize,
    pub files_deleted: usize,
}

impl DomainEvent for SyncCompleted {
    open spec fn kind_name(&self) -> Seq<char> {
        seq!['S', 'y', 'n', 'c', 'C', 'o', 'm', 'p', 'l', 'e', 't', 'e', 'd']
    }

    open spec fn subject(&self) -> Seq<char> {
        self.directory_path@
    }

    fn event_type(&self) -> (r: &'static str) {
        proof {
            reveal_strlit("SyncCompleted");
        }
        "SyncCompleted"
    }

    fn aggregate_id(&self) -> (r: String) {
        self.directory_path.clone()
    }
}

/// Any one of the domain's events.
#[derive(Debug, Clone)]
pub enum DomainEventEnum {
    PageCreated(PageCreated),
    PageUpdated(PageUpdated),
    PageDeleted(PageDeleted),
    BlockAdded(BlockAdded),
    BlockUpdated(BlockUpdated),
    BlockRemoved(BlockRemoved),
    ImportStarted(ImportStarted),
    FileProcessed(FileProcessed),
    ImportCompleted(ImportCompleted),
    ImportFailed(ImportFailed),
    SyncStarted(SyncStarted),
    FileCreated(FileCreatedEvent),
    FileUpdated(FileUpdatedEvent),
    FileDeleted(FileDeletedEvent),
    SyncCompleted(SyncCompleted),
}

impl DomainEvent for DomainEventEnum {
    open spec fn kind_name(&self) -> Seq<char> {
        match self {
            DomainEventEnum::PageCreated(e) => e.kind_name(),
            DomainEventEnum::PageUpdated(e) => e.kind_name(),
            DomainEventEnum::PageDeleted(e) => e.kind_name(),
            DomainEventEnum::BlockAdded(e) => e.kind_name(),
            DomainEventEnum::BlockUpdated(e) => e.kind_name(),
            DomainEventEnum::BlockRemoved(e) => e.kind_name(),
            DomainEventEnum::ImportStarted(e) => e.kind_name(),
            DomainEventEnum::FileProcessed(e) => e.kind_name(),
            DomainEventEnum::ImportCompleted(e) => e.kind_name(),
            DomainEventEnum::ImportFailed(e) => e.kind_name(),
            DomainEventEnum::SyncStarted(e) => e.kind_name(),
            DomainEventEnum::FileCreated(e) => e.kind_name(),
            DomainEventEnum::FileUpdated(e) => e.kind_name(),
            DomainEventEnum::FileDeleted(e) => e.kind_name(),
            DomainEventEnum::SyncCompleted(e) => e.kind_name(),
        }
    }

    open spec fn subject(&self) -> Seq<char> {
        match self {
            DomainEventEnum::PageCreated(e) => e.subject(),
            DomainEventEnum::PageUpdated(e) => e.subject(),
            DomainEventEnum::PageDeleted(e) => e.subject(),
            DomainEventEnum::BlockAdded(e) => e.subject(),
            DomainEventEnum::BlockUpdated(e) => e.subject(),
            DomainEventEnum::BlockRemoved(e) => e.subject(),
            DomainEventEnum::ImportStarted(e) => e.subject(),
            DomainEventEnum::FileProcessed(e) => e.subject(),
            DomainEventEnum::ImportCompleted(e) => e.subject(),
            DomainEventEnum::ImportFailed(e) => e.subject(),
            DomainEventEnum::SyncStarted(e) => e.subject(),
            DomainEventEnum::FileCreated(e) => e.subject(),
            DomainEventEnum::FileUpdated(e) => e.subject(),
            DomainEventEnum::FileDeleted(e) => e.subject(),
            DomainEventEnum::SyncCompleted(e) => e.subject(),
        }
    }

    fn event_type(&self) -> (r: &'static str) {
        match self {
            DomainEventEnum::PageCreated(e) => e.event_type(),
            DomainEventEnum::PageUpdated(e) => e.event_type(),
            DomainEventEnum::PageDeleted(e) => e.event_type(),
            DomainEventEnum::BlockAdded(e) => e.event_type(),
            DomainEventEnum::BlockUpdated(e) => e.event_type(),
            DomainEventEnum::BlockRemoved(e) => e.event_type(),
            DomainEventEnum::ImportStarted(e) => e.event_type(),
            DomainEventEnum::FileProcessed(e) => e.event_type(),
            DomainEventEnum::ImportCompleted(e) => e.event_type(),
            DomainEventEnum::ImportFailed(e) => e.event_type(),
            DomainEventEnum::SyncStarted(e) => e.event_type(),
            DomainEventEnum::FileCreated(e) => e.event_type(),
            DomainEventEnum::FileUpdated(e) => e.event_type(),
            DomainEventEnum::FileDeleted(e) => e.event_type(),
            DomainEventEnum::SyncCompleted(e) => e.event_type(),
        }
    }

    fn aggregate_id(&self) -> (r: String) {
        match self {
            DomainEventEnum::PageCreated(e) => e.aggregate_id(),
            DomainEventEnum::PageUpdated(e) => e.aggregate_id(),
            DomainEventEnum::PageDeleted(e) => e.aggregate_id(),
            DomainEventEnum::BlockAdded(e) => e.aggregate_id(),
            DomainEventEnum::BlockUpdated(e) => e.aggregate_id(),
            DomainEventEnum::BlockRemoved(e) => e.aggregate_id(),
            DomainEventEnum::ImportStarted(e) => e.aggregate_id(),
            DomainEventEnum::FileProcessed(e) => e.aggregate_id(),
            DomainEventEnum::ImportCompleted(e) => e.aggregate_id(),
            DomainEventEnum::ImportFailed(e) => e.aggregate_id(),
            DomainEventEnum::SyncStarted(e) => e.aggregate_id(),
            DomainEventEnum::FileCreated(e) => e.aggregate_id(),
            DomainEventEnum::FileUpdated(e) => e.aggregate_id(),
            DomainEventEnum::FileDeleted(e) => e.aggregate_id(),
            DomainEventEnum::SyncCompleted(e) => e.aggregate_id(),
        }
    }
}

} // verus!
