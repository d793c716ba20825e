use logseq_index::aggregates::Page;
use logseq_index::base::Entity;
use logseq_index::dto::{ResultType, SearchItem, SearchRequest};
use logseq_index::entities::Block;
use logseq_index::repository::{InMemoryPageRepository, PageRepository};
use logseq_index::search::SearchPagesAndBlocks;
use logseq_index::use_cases::{BatchIndexPages, GetLinksForPage, IndexPage};
use logseq_index::value_objects::{BlockContent, BlockId, IndentLevel, PageId, PageReference, Url};

fn create_test_page() -> Page {
    let page_id = PageId::new("test-page").unwrap();
    let mut page = Page::new(page_id, "Test Page".to_string());
    let block1 = Block::new_root(BlockId::new("block-1").unwrap(), BlockContent::new("First block with test content"));
    page.add_block(block1).unwrap();
    let block2 = Block::new_root(BlockId::new("block-2").unwrap(), BlockContent::new("Second block with different text"));
    page.add_block(block2).unwrap();
    page
}

#[test]
fn test_index_page() {
    let mut repo = InMemoryPageRepository::new();
    let page_id = PageId::new("page-1").unwrap();
    let page = Page::new(page_id.clone(), "Test Page".to_string());
    let mut use_case = IndexPage::new(&mut repo);
    use_case.execute(page).unwrap();
    let retrieved = repo.find_by_id(&page_id).unwrap();
    assert!(retrieved.is_some());
    assert_eq!(retrieved.unwrap().title(), "Test Page");
}

#[test]
fn test_index_page_update_existing() {
    let mut repo = InMemoryPageRepository::new();
    let page_id = PageId::new("page-1").unwrap();
    let page1 = Page::new(page_id.clone(), "Original Title".to_string());
    let mut use_case = IndexPage::new(&mut repo);
    use_case.execute(page1).unwrap();

    let mut page2 = Page::new(page_id.clone(), "Updated Title".to_string());
    let block = Block::new_root(BlockId::new("block-1").unwrap(), BlockContent::new("New content"));
    page2.add_block(block).unwrap();
    let mut use_case2 = IndexPage::new(&mut repo);
    use_case2.execute(page2).unwrap();

    let retrieved = repo.find_by_id(&page_id).unwrap().unwrap();
    assert_eq!(retrieved.title(), "Updated Title");
    assert_eq!(retrieved.all_blocks().count(), 1);
}

#[test]
fn test_batch_index_pages() {
    let mut repo = InMemoryPageRepository::new();
    let pages = vec![
        Page::new(PageId::new("page-1").unwrap(), "Page 1".to_string()),
        Page::new(PageId::new("page-2").unwrap(), "Page 2".to_string()),
        Page::new(PageId::new("page-3").unwrap(), "Page 3".to_string()),
    ];
    let mut use_case = BatchIndexPages::new(&mut repo);
    let count = use_case.execute(pages).unwrap();
    assert_eq!(count, 3);
    assert_eq!(repo.find_all().unwrap().len(), 3);
}

#[test]
fn test_get_links_for_page_single_url() {
    let mut repo = InMemoryPageRepository::new();
    let page_id = PageId::new("page-1").unwrap();
    let mut page = Page::new(page_id.clone(), "Page 1".to_string());
    let mut block = Block::new_root(BlockId::new("block-1").unwrap(), BlockContent::new("Check this link"));
    block.add_url(Url::new("https://example.com").unwrap());
    page.add_block(block).unwrap();
    repo.save(page).unwrap();

    let use_case = GetLinksForPage::new(&repo);
    let links = use_case.execute(&page_id).unwrap();
    assert_eq!(links.len(), 1);
    assert_eq!(links[0].url.as_str(), "https://example.com");
    assert_eq!(links[0].block_content, "Check this link");
}

#[test]
fn test_get_links_for_page_multiple_urls() {
    let mut repo = InMemoryPageRepository::new();
    let page_id = PageId::new("page-1").unwrap();
    let mut page = Page::new(page_id.clone(), "Page 1".to_string());
    let mut block1 = Block::new_root(BlockId::new("block-1").unwrap(), BlockContent::new("First link"));
    block1.add_url(Url::new("https://example.com").unwrap());
    page.add_block(block1).unwrap();
    let mut block2 = Block::new_root(BlockId::new("block-2").unwrap(), BlockContent::new("Second link"));
    block2.add_url(Url::new("https://test.com").unwrap());
    page.add_block(block2).unwrap();
    repo.save(page).unwrap();

    let use_case = GetLinksForPage::new(&repo);
    let links = use_case.execute(&page_id).unwrap();
    assert_eq!(links.len(), 2);
}

#[test]
fn test_get_links_for_page_with_hierarchy() {
    let mut repo = InMemoryPageRepository::new();
    let page_id = PageId::new("page-1").unwrap();
    let mut page = Page::new(page_id.clone(), "Page 1".to_string());
    let mut parent = Block::new_root(BlockId::new("parent").unwrap(), BlockContent::new("Parent block"));
    parent.add_page_reference(PageReference::from_brackets("topic").unwrap());
    page.add_block(parent).unwrap();
    let parent_id = BlockId::new("parent").unwrap();
    let mut child = Block::new_child(
        BlockId::new("child").unwrap(),
        BlockContent::new("Child block with link"),
        parent_id.clone(),
        IndentLevel::new(1),
    );
    child.add_url(Url::new("https://example.com").unwrap());
    page.add_block(child).unwrap();
    repo.save(page).unwrap();

    let use_case = GetLinksForPage::new(&repo);
    let links = use_case.execute(&page_id).unwrap();
    assert_eq!(links.len(), 1);
    assert_eq!(links[0].hierarchy_path.len(), 2);
    assert!(!links[0].related_page_refs.is_empty());
}

#[test]
fn test_get_links_for_page_no_urls() {
    let mut repo = InMemoryPageRepository::new();
    let page_id = PageId::new("page-1").unwrap();
    let mut page = Page::new(page_id.clone(), "Page 1".to_string());
    let block = Block::new_root(BlockId::new("block-1").unwrap(), BlockContent::new("No links here"));
    page.add_block(block).unwrap();
    repo.save(page).unwrap();

    let use_case = GetLinksForPage::new(&repo);
    let links = use_case.execute(&page_id).unwrap();
    assert_eq!(links.len(), 0);
}

#[test]
fn test_search_pages_by_title() {
    let mut repo = InMemoryPageRepository::new();
    repo.save(create_test_page()).unwrap();
    let use_case = SearchPagesAndBlocks::new(&repo);
    let request = SearchRequest::new("Test Page").with_result_type(ResultType::PagesOnly);
    let results = use_case.execute(request).unwrap();
    assert_eq!(results.len(), 1);
    assert!(matches!(results[0].item, SearchItem::Page(_)));
}

#[test]
fn test_search_blocks_by_content() {
    let mut repo = InMemoryPageRepository::new();
    repo.save(create_test_page()).unwrap();
    let use_case = SearchPagesAndBlocks::new(&repo);
    let request = SearchRequest::new("test content").with_result_type(ResultType::BlocksOnly);
    let results = use_case.execute(request).unwrap();
    assert_eq!(results.len(), 1);
    if let SearchItem::Block(block_result) = &results[0].item {
        assert!(block_result.content.contains("test content"));
    } else {
        panic!("Expected Block result");
    }
}

#[test]
fn search_test_search_with_page_filter() {
    let mut repo = InMemoryPageRepository::new();
    let page1 = create_test_page();
    let page1_id = page1.id().clone();
    let page2_id = PageId::new("other-page").unwrap();
    let page2 = Page::new(page2_id.clone(), "Other Page".to_string());
    repo.save(page1).unwrap();
    repo.save(page2).unwrap();

    let use_case = SearchPagesAndBlocks::new(&repo);
    let request = SearchRequest::new("page")
        .with_result_type(ResultType::PagesOnly)
        .with_page_filters(vec![page1_id]);
    let results = use_case.execute(request).unwrap();
    assert_eq!(results.len(), 1);
    if let SearchItem::Page(page_result) = &results[0].item {
        assert_eq!(page_result.title, "Test Page");
    }
}

#[test]
fn test_search_all_types() {
    let mut repo = InMemoryPageRepository::new();
    repo.save(create_test_page()).unwrap();
    let use_case = SearchPagesAndBlocks::new(&repo);
    let request = SearchRequest::new("test").with_result_type(ResultType::All);
    let results = use_case.execute(request).unwrap();
    assert!(results.len() >= 2);
}

#[test]
fn test_search_urls() {
    let mut repo = InMemoryPageRepository::new();
    let page_id = PageId::new("url-page").unwrap();
    let mut page = Page::new(page_id, "URL Page".to_string());
    let mut block = Block::new_root(BlockId::new("url-block").unwrap(), BlockContent::new("Check out this link"));
    block.add_url(Url::new("https://example.com").unwrap());
    page.add_block(block).unwrap();
    repo.save(page).unwrap();

    let use_case = SearchPagesAndBlocks::new(&repo);
    let request = SearchRequest::new("example.com").with_result_type(ResultType::UrlsOnly);
    let results = use_case.execute(request).unwrap();
    assert_eq!(results.len(), 1);
    assert!(matches!(results[0].item, SearchItem::Url(_)));
}
