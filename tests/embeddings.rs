use logseq_index::embeddings::{batch_bounds, chunks_for_page, EmbeddingServiceConfig, EmbeddingStats};
use logseq_index::parser::LogseqMarkdownParser;
use logseq_index::preprocess::TextPreprocessor;
use logseq_index::value_objects::PageId;

#[test]
fn default_config_values() {
    let c = EmbeddingServiceConfig::default();
    assert_eq!(c.max_words_per_chunk, 150);
    assert_eq!(c.overlap_words, 50);
    assert_eq!(c.batch_size, 32);
    assert_eq!(c.collection_name, "logseq_blocks");
    assert_eq!(c.model.dimension_count(), 384);
}

#[test]
fn pages_yield_chunks_per_block() {
    let text = "- Machine learning is a subset of artificial intelligence\n  - one two three four five six\n- ";
    let page = LogseqMarkdownParser::parse_content(text, PageId::new("ml").unwrap(), "ML".to_string()).unwrap();
    let (chunks, processed) = chunks_for_page(&page, &TextPreprocessor::new(), 4, 1);
    assert_eq!(processed, 2);
    assert!(chunks.len() >= 2);
    let first = &chunks[0];
    assert_eq!(first.chunk_index, 0);
    assert_eq!(first.chunk_id, format!("{}-chunk-0", first.block_id));
    assert_eq!(first.page_id, "ml");
    assert_eq!(first.page_title, "ML");
    assert_eq!(first.hierarchy_path.len(), 1);
    assert!(chunks.iter().all(|c| c.chunk_index < c.total_chunks));
    let child: Vec<_> = chunks.iter().filter(|c| c.hierarchy_path.len() == 2).collect();
    assert_eq!(child[0].original_content, "one two three four five six");
}

#[test]
fn batches_cover_everything_in_order() {
    assert!(batch_bounds(0, 32).is_empty());
    assert_eq!(batch_bounds(5, 2), vec![(0, 2), (2, 4), (4, 5)]);
    assert_eq!(batch_bounds(4, 4), vec![(0, 4)]);
}

#[test]
fn stats_add_up() {
    let mut total = EmbeddingStats::default();
    let page = EmbeddingStats { blocks_processed: 2, chunks_created: 3, chunks_stored: 3, errors: 0 };
    total.absorb(&page);
    total.absorb(&page);
    assert_eq!((total.blocks_processed, total.chunks_created, total.chunks_stored, total.errors), (4, 6, 6, 0));
}
