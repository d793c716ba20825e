use logseq_index::value_objects::{
    BlockContent, BlockId, ChunkId, DirectoryProbe, EmbeddingModel, ImportProgress, IndentLevel,
    LogseqDirectoryPath, PageId, PageReference, Url,
};

#[test]
fn test_page_id_creation() {
    let id = PageId::new("test-page").unwrap();
    assert_eq!(id.as_str(), "test-page");

    let empty_id = PageId::new("");
    assert!(empty_id.is_err());
}

#[test]
fn test_block_id_creation() {
    let id = BlockId::new("block-123").unwrap();
    assert_eq!(id.as_str(), "block-123");

    let empty_id = BlockId::new("");
    assert!(empty_id.is_err());
}

#[test]
fn test_url_creation() {
    let url = Url::new("https://example.com").unwrap();
    assert_eq!(url.as_str(), "https://example.com");

    let invalid_url = Url::new("not-a-url");
    assert!(invalid_url.is_err());

    let empty_url = Url::new("");
    assert!(empty_url.is_err());
}

#[test]
fn test_url_domain_extraction() {
    let url = Url::new("https://example.com/path/to/page").unwrap();
    assert_eq!(url.domain(), Some("example.com".to_string()));

    let url2 = Url::new("https://subdomain.example.com").unwrap();
    assert_eq!(url2.domain(), Some("subdomain.example.com".to_string()));
}

#[test]
fn test_page_reference_creation() {
    let ref1 = PageReference::from_brackets("my-page").unwrap();
    assert_eq!(ref1.title(), "my-page");
    assert!(!ref1.is_tag());
    assert!(ref1.is_page_reference());
    assert_eq!(ref1.to_string(), "[[my-page]]");

    let ref2 = PageReference::from_tag("my-tag").unwrap();
    assert_eq!(ref2.title(), "my-tag");
    assert!(ref2.is_tag());
    assert!(!ref2.is_page_reference());
    assert_eq!(ref2.to_string(), "#my-tag");

    let empty_ref = PageReference::from_brackets("");
    assert!(empty_ref.is_err());
}

#[test]
fn test_block_content() {
    let content = BlockContent::new("This is some text");
    assert_eq!(content.as_str(), "This is some text");
    assert!(!content.is_empty());

    let empty_content = BlockContent::new("   ");
    assert!(empty_content.is_empty());
}

#[test]
fn test_indent_level() {
    let root = IndentLevel::root();
    assert_eq!(root.value(), 0);

    let level1 = root.increment();
    assert_eq!(level1.value(), 1);

    let level2 = level1.increment();
    assert_eq!(level2.value(), 2);

    let back_to_1 = level2.decrement().unwrap();
    assert_eq!(back_to_1.value(), 1);

    let back_to_0 = back_to_1.decrement().unwrap();
    assert_eq!(back_to_0.value(), 0);

    let none = back_to_0.decrement();
    assert!(none.is_none());
}

#[test]
fn test_logseq_directory_path() {
    let invalid_path = LogseqDirectoryPath::new("/non/existent/path");
    assert!(invalid_path.is_err());
}

#[test]
fn test_chunk_id_creation() {
    let id = ChunkId::new("chunk-123").unwrap();
    assert_eq!(id.as_str(), "chunk-123");

    let empty_id = ChunkId::new("");
    assert!(empty_id.is_err());
}

#[test]
fn test_chunk_id_from_block() {
    let block_id = BlockId::new("block-456").unwrap();
    let chunk_id = ChunkId::from_block(&block_id, 0);
    assert_eq!(chunk_id.as_str(), "block-456-chunk-0");

    let chunk_id2 = ChunkId::from_block(&block_id, 2);
    assert_eq!(chunk_id2.as_str(), "block-456-chunk-2");
}

#[test]
fn test_embedding_model() {
    let model = EmbeddingModel::default();
    assert_eq!(model, EmbeddingModel::AllMiniLML6V2);
    assert_eq!(model.dimension_count(), 384);
    assert_eq!(model.model_name(), "sentence-transformers/all-MiniLM-L6-v2");
}

#[test]
fn chunk_id_with_multi_digit_index() {
    let block_id = BlockId::new("b").unwrap();
    assert_eq!(ChunkId::from_block(&block_id, 1207).as_str(), "b-chunk-1207");
}

#[test]
fn url_without_scheme_separator_has_no_domain() {
    let url = Url::new("http://").unwrap();
    assert_eq!(url.domain(), Some(String::new()));
    let bare = Url::new("https://host:8080/x").unwrap();
    assert_eq!(bare.domain(), Some("host:8080".to_string()));
}

#[test]
fn url_requires_scheme_prefix() {
    assert!(Url::new("ftp://example.com").is_err());
    assert!(Url::new("http://x").is_ok());
    assert!(Url::new("https:/x").is_err());
}

#[test]
fn import_progress_counts_files() {
    let mut progress = ImportProgress::new(3);
    assert_eq!(progress.files_processed(), 0);
    assert_eq!(progress.total_files(), 3);
    assert!(progress.current_file().is_none());
    progress.increment();
    progress.set_current_file(Some("/test/file.md".to_string()));
    assert_eq!(progress.files_processed(), 1);
    assert_eq!(progress.current_file().unwrap(), "/test/file.md");
}

#[test]
fn directory_validation_reports_missing_subdirectories() {
    let ok = DirectoryProbe { exists: true, is_dir: true, pages_is_dir: true, journals_is_dir: true };
    assert!(LogseqDirectoryPath::validate("/kb", &ok).is_ok());
    let no_journals = DirectoryProbe { exists: true, is_dir: true, pages_is_dir: true, journals_is_dir: false };
    assert!(LogseqDirectoryPath::validate("/kb", &no_journals).is_err());
    let missing = DirectoryProbe { exists: false, is_dir: false, pages_is_dir: false, journals_is_dir: false };
    assert!(LogseqDirectoryPath::validate("/kb", &missing).is_err());
}
