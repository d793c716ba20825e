use logseq_index::aggregates::Page;
use logseq_index::dto::{ResultType, SearchItem, SearchRequest, SearchType};
use logseq_index::entities::Block;
use logseq_index::repository::{InMemoryPageRepository, PageRepository};
use logseq_index::search::SearchPagesAndBlocks;
use logseq_index::use_cases::{BatchIndexPages, GetLinksForPage, GetPagesForUrl, IndexPage};
use logseq_index::value_objects::{BlockContent, BlockId, IndentLevel, PageId, PageReference, Url};

fn create_sample_knowledge_base() -> InMemoryPageRepository {
    let mut repo = InMemoryPageRepository::new();

    let page1_id = PageId::new("programming").unwrap();
    let mut page1 = Page::new(page1_id.clone(), "Programming".to_string());
    let mut block1_1 = Block::new_root(
        BlockId::new("prog-1").unwrap(),
        BlockContent::new("Learning Rust programming language"),
    );
    block1_1.add_url(Url::new("https://rust-lang.org").unwrap());
    block1_1.add_page_reference(PageReference::from_tag("learning").unwrap());
    page1.add_block(block1_1).unwrap();
    let mut block1_2 = Block::new_child(
        BlockId::new("prog-2").unwrap(),
        BlockContent::new("Ownership and borrowing concepts"),
        BlockId::new("prog-1").unwrap(),
        IndentLevel::new(1),
    );
    block1_2.add_url(Url::new("https://doc.rust-lang.org/book/ch04-00-understanding-ownership.html").unwrap());
    page1.add_block(block1_2).unwrap();
    repo.save(page1).unwrap();

    let page2_id = PageId::new("web-dev").unwrap();
    let mut page2 = Page::new(page2_id, "Web Development".to_string());
    let mut block2_1 = Block::new_root(
        BlockId::new("web-1").unwrap(),
        BlockContent::new("Building web applications with Rust"),
    );
    block2_1.add_url(Url::new("https://rocket.rs").unwrap());
    block2_1.add_page_reference(PageReference::from_brackets("programming").unwrap());
    page2.add_block(block2_1).unwrap();
    let mut block2_2 = Block::new_root(BlockId::new("web-2").unwrap(), BlockContent::new("Frontend frameworks"));
    block2_2.add_url(Url::new("https://yew.rs").unwrap());
    page2.add_block(block2_2).unwrap();
    repo.save(page2).unwrap();

    let page3_id = PageId::new("learning").unwrap();
    let mut page3 = Page::new(page3_id, "Learning Resources".to_string());
    let mut block3_1 = Block::new_root(
        BlockId::new("learn-1").unwrap(),
        BlockContent::new("Best resources for learning programming"),
    );
    block3_1.add_url(Url::new("https://rust-lang.org").unwrap());
    page3.add_block(block3_1).unwrap();
    repo.save(page3).unwrap();

    repo
}

#[test]
fn test_batch_index_empty() {
    let mut repo = InMemoryPageRepository::new();
    let mut use_case = BatchIndexPages::new(&mut repo);
    let count = use_case.execute(vec![]).unwrap();
    assert_eq!(count, 0);
}

#[test]
fn test_get_links_for_page_not_found() {
    let repo = InMemoryPageRepository::new();
    let page_id = PageId::new("nonexistent").unwrap();
    let use_case = GetLinksForPage::new(&repo);
    let result = use_case.execute(&page_id);
    assert!(result.is_err());
}

#[test]
fn test_get_pages_for_url_not_found() {
    let repo = InMemoryPageRepository::new();
    let url = Url::new("https://notfound.com").unwrap();
    let use_case = GetPagesForUrl::new(&repo);
    let connections = use_case.execute(&url).unwrap();
    assert_eq!(connections.len(), 0);
}

#[test]
fn test_indexing_workflow() {
    let mut repo = InMemoryPageRepository::new();

    let page_id = PageId::new("new-page").unwrap();
    let mut page = Page::new(page_id.clone(), "New Page".to_string());
    let mut block = Block::new_root(
        BlockId::new("new-block").unwrap(),
        BlockContent::new("Content with important information"),
    );
    block.add_url(Url::new("https://example.com").unwrap());
    page.add_block(block).unwrap();

    let mut index_use_case = IndexPage::new(&mut repo);
    index_use_case.execute(page).unwrap();

    let search_use_case = SearchPagesAndBlocks::new(&repo);
    let request = SearchRequest::new("important");
    let results = search_use_case.execute(request).unwrap();

    assert_eq!(results.len(), 1);
}

#[test]
fn test_get_pages_for_url_single_page() {
    let mut repo = InMemoryPageRepository::new();
    let page_id = PageId::new("page-1").unwrap();
    let mut page = Page::new(page_id, "Page 1".to_string());
    let mut block = Block::new_root(BlockId::new("block-1").unwrap(), BlockContent::new("Check this out"));
    let url = Url::new("https://example.com").unwrap();
    block.add_url(url.clone());
    page.add_block(block).unwrap();
    repo.save(page).unwrap();

    let use_case = GetPagesForUrl::new(&repo);
    let connections = use_case.execute(&url).unwrap();
    assert_eq!(connections.len(), 1);
    assert_eq!(connections[0].page_title, "Page 1");
    assert_eq!(connections[0].blocks_with_url.len(), 1);
}

#[test]
fn test_get_pages_for_url_multiple_pages() {
    let mut repo = InMemoryPageRepository::new();
    let url = Url::new("https://example.com").unwrap();
    for i in 1..=2 {
        let page_id = PageId::new(&format!("page-{}", i)).unwrap();
        let mut page = Page::new(page_id, format!("Page {}", i));
        let mut block = Block::new_root(BlockId::new(&format!("block-{}", i)).unwrap(), BlockContent::new("Link here"));
        block.add_url(url.clone());
        page.add_block(block).unwrap();
        repo.save(page).unwrap();
    }
    let use_case = GetPagesForUrl::new(&repo);
    let connections = use_case.execute(&url).unwrap();
    assert_eq!(connections.len(), 2);
}

#[test]
fn test_get_pages_for_url_multiple_blocks_same_page() {
    let mut repo = InMemoryPageRepository::new();
    let page_id = PageId::new("page-1").unwrap();
    let mut page = Page::new(page_id, "Page 1".to_string());
    let url = Url::new("https://example.com").unwrap();
    for i in 1..=2 {
        let mut block = Block::new_root(BlockId::new(&format!("block-{}", i)).unwrap(), BlockContent::new(&format!("Block {}", i)));
        block.add_url(url.clone());
        page.add_block(block).unwrap();
    }
    repo.save(page).unwrap();
    let use_case = GetPagesForUrl::new(&repo);
    let connections = use_case.execute(&url).unwrap();
    assert_eq!(connections.len(), 1);
    assert_eq!(connections[0].blocks_with_url.len(), 2);
}

#[test]
fn test_get_links_for_page() {
    let repo = create_sample_knowledge_base();
    let use_case = GetLinksForPage::new(&repo);
    let links = use_case.execute(&PageId::new("programming").unwrap()).unwrap();
    assert_eq!(links.len(), 2);
    let nested = links.iter().find(|l| l.url.as_str().contains("understanding-ownership")).expect("Should find the nested URL");
    assert!(nested.hierarchy_path.len() >= 2);
    assert!(!nested.related_page_refs.is_empty());
}

#[test]
fn test_get_pages_for_url() {
    let repo = create_sample_knowledge_base();
    let use_case = GetPagesForUrl::new(&repo);
    let connections = use_case.execute(&Url::new("https://rust-lang.org").unwrap()).unwrap();
    assert_eq!(connections.len(), 2);
    assert!(connections.iter().any(|c| c.page_title == "Programming"));
    assert!(connections.iter().any(|c| c.page_title == "Learning Resources"));
}

#[test]
fn test_cross_page_references() {
    let repo = create_sample_knowledge_base();
    let search_use_case = SearchPagesAndBlocks::new(&repo);
    let request = SearchRequest::new("Building").with_result_type(ResultType::BlocksOnly);
    let results = search_use_case.execute(request).unwrap();
    let web_dev_block = results.iter().find(|r| match &r.item {
        SearchItem::Block(b) => b.page_title == "Web Development",
        _ => false,
    });
    assert!(web_dev_block.is_some(), "Should find block in Web Development page");
    let programming_search = SearchRequest::new("Rust").with_result_type(ResultType::BlocksOnly);
    let prog_results = search_use_case.execute(programming_search).unwrap();
    assert!(prog_results.len() >= 2, "Should find Rust mentioned in multiple pages");
}

#[test]
fn test_url_context_includes_related_pages() {
    let repo = create_sample_knowledge_base();
    let use_case = GetLinksForPage::new(&repo);
    let page_id = PageId::new("web-dev").unwrap();
    let links = use_case.execute(&page_id).unwrap();
    assert_eq!(links.len(), 2);
    let rocket_url = links.iter().find(|l| l.url.as_str().contains("rocket.rs")).expect("Should find rocket.rs URL");
    assert!(rocket_url.url.as_str().contains("rocket.rs"));
    assert_eq!(rocket_url.block_content, "Building web applications with Rust");
}

#[test]
fn test_search_by_keyword() {
    let repo = create_sample_knowledge_base();
    let use_case = SearchPagesAndBlocks::new(&repo);
    let results = use_case.execute(SearchRequest::new("Rust")).unwrap();
    assert!(results.len() >= 2, "Expected at least 2 results");
}

#[test]
fn test_search_pages_only() {
    let repo = create_sample_knowledge_base();
    let use_case = SearchPagesAndBlocks::new(&repo);
    let request = SearchRequest::new("programming").with_result_type(ResultType::PagesOnly);
    let results = use_case.execute(request).unwrap();
    assert_eq!(results.len(), 1);
    assert!(matches!(results[0].item, SearchItem::Page(_)));
    assert_eq!(results[0].score_tenths, 10);
}

#[test]
fn test_search_urls_only() {
    let repo = create_sample_knowledge_base();
    let use_case = SearchPagesAndBlocks::new(&repo);
    let request = SearchRequest::new("rust-lang.org").with_result_type(ResultType::UrlsOnly);
    let results = use_case.execute(request).unwrap();
    assert!(results.len() >= 2, "Expected at least 2 URL results");
    assert_eq!(results.len(), 3);
    assert!(results.iter().all(|r| matches!(r.item, SearchItem::Url(_))));
    assert!(results.iter().all(|r| r.score_tenths == 8));
}

#[test]
fn test_hierarchical_context_in_search_results() {
    let repo = create_sample_knowledge_base();
    let use_case = SearchPagesAndBlocks::new(&repo);
    let request = SearchRequest::new("Ownership and borrowing").with_result_type(ResultType::BlocksOnly);
    let results = use_case.execute(request).unwrap();
    assert_eq!(results.len(), 1);
    assert_eq!(results[0].score_tenths, 9);
    match &results[0].item {
        SearchItem::Block(b) => {
            assert_eq!(b.hierarchy_path.len(), 2);
            assert!(!b.related_pages.is_empty());
            assert!(!b.related_urls.is_empty());
            assert_eq!(b.related_pages[0].title(), "learning");
        },
        _ => panic!("expected a block result"),
    }
}

#[test]
fn application_integration_test_test_search_with_page_filter() {
    let repo = create_sample_knowledge_base();
    let search_use_case = SearchPagesAndBlocks::new(&repo);
    let page_id = PageId::new("programming").unwrap();
    let request = SearchRequest::new("Rust")
        .with_result_type(ResultType::BlocksOnly)
        .with_page_filters(vec![page_id]);
    let results = search_use_case.execute(request).unwrap();
    assert_eq!(results.len(), 1);
}

#[test]
fn page_filters_skip_absent_pages() {
    let repo = create_sample_knowledge_base();
    let use_case = SearchPagesAndBlocks::new(&repo);
    let request = SearchRequest::new("rust")
        .with_page_filters(vec![PageId::new("web-dev").unwrap(), PageId::new("missing").unwrap()]);
    let results = use_case.execute(request).unwrap();
    assert!(!results.is_empty());
    for r in &results {
        match &r.item {
            SearchItem::Page(p) => assert_eq!(p.page_id.as_str(), "web-dev"),
            SearchItem::Block(b) => assert_eq!(b.page_id.as_str(), "web-dev"),
            SearchItem::Url(u) => assert_eq!(u.page_id.as_str(), "web-dev"),
        }
    }
}

#[test]
fn semantic_requests_fall_back_to_keywords() {
    let repo = create_sample_knowledge_base();
    let use_case = SearchPagesAndBlocks::new(&repo);
    let keyword = use_case.execute(SearchRequest::new("frontend")).unwrap();
    let semantic = use_case.execute(SearchRequest::new("frontend").with_search_type(SearchType::Semantic)).unwrap();
    assert_eq!(keyword.len(), 1);
    assert_eq!(semantic.len(), 1);
    assert_eq!(semantic[0].score_tenths, 9);
}

#[test]
fn results_are_ranked_by_score_keeping_discovery_order() {
    let mut repo = InMemoryPageRepository::new();
    let mut page = Page::new(PageId::new("p").unwrap(), "zeta notes".to_string());
    for (i, text) in ["has notes inside", "notes first", "notes", "other"].iter().enumerate() {
        page.add_block(Block::new_root(BlockId::new(&format!("b{}", i)).unwrap(), BlockContent::new(text))).unwrap();
    }
    repo.save(page).unwrap();
    let use_case = SearchPagesAndBlocks::new(&repo);
    let results = use_case.execute(SearchRequest::new("NOTES")).unwrap();
    let scores: Vec<u32> = results.iter().map(|r| r.score_tenths).collect();
    assert_eq!(scores, vec![10, 9, 7, 7]);
    match &results[2].item {
        SearchItem::Page(p) => assert_eq!(p.title, "zeta notes"),
        _ => panic!("the page is found before its blocks"),
    }
}

#[test]
fn batch_indexing_counts_pages() {
    let mut repo = InMemoryPageRepository::new();
    let pages = vec![
        Page::new(PageId::new("a").unwrap(), "A".to_string()),
        Page::new(PageId::new("b").unwrap(), "B".to_string()),
        Page::new(PageId::new("a").unwrap(), "A again".to_string()),
    ];
    let mut use_case = BatchIndexPages::new(&mut repo);
    assert_eq!(use_case.execute(pages).unwrap(), 3);
    assert_eq!(repo.len(), 2);
    assert_eq!(repo.find_by_title("A again").unwrap().unwrap().title(), "A again");
    assert!(repo.find_by_title("A").unwrap().is_none());
    assert!(repo.delete(&PageId::new("b").unwrap()).unwrap());
    assert!(!repo.delete(&PageId::new("b").unwrap()).unwrap());
    assert_eq!(repo.find_all().unwrap().len(), 1);
}

#[test]
fn url_prefix_matches_score_nine() {
    let mut repo = InMemoryPageRepository::new();
    let mut page = Page::new(PageId::new("p").unwrap(), "P".to_string());
    let mut block = Block::new_root(BlockId::new("b").unwrap(), BlockContent::new("x"));
    block.add_url(Url::new("https://rust-lang.org/learn").unwrap());
    block.add_url(Url::new("https://rust-lang.org").unwrap());
    page.add_block(block).unwrap();
    repo.save(page).unwrap();
    let use_case = SearchPagesAndBlocks::new(&repo);
    let results = use_case
        .execute(SearchRequest::new("https://rust-lang.org").with_result_type(ResultType::UrlsOnly))
        .unwrap();
    let scores: Vec<u32> = results.iter().map(|r| r.score_tenths).collect();
    assert_eq!(scores, vec![10, 9]);
}

#[test]
fn a_url_in_two_blocks_is_reported_with_each_block() {
    let mut repo = InMemoryPageRepository::new();
    let page_id = PageId::new("p").unwrap();
    let mut page = Page::new(page_id.clone(), "P".to_string());
    let a = BlockId::new("a").unwrap();
    let mut first = Block::new_root(a.clone(), BlockContent::new("first"));
    first.add_url(Url::new("https://same.org").unwrap());
    page.add_block(first).unwrap();
    let mut second = Block::new_child(BlockId::new("b").unwrap(), BlockContent::new("second"), a, IndentLevel::new(1));
    second.add_url(Url::new("https://same.org").unwrap());
    page.add_block(second).unwrap();
    repo.save(page).unwrap();
    let links = GetLinksForPage::new(&repo).execute(&page_id).unwrap();
    let owners: Vec<&str> = links.iter().map(|l| l.block_id.as_str()).collect();
    assert_eq!(owners, vec!["a", "b"]);
    assert_eq!(links[1].block_content, "second");
    assert_eq!(links[1].hierarchy_path.len(), 2);
    let hits = SearchPagesAndBlocks::new(&repo)
        .execute(SearchRequest::new("same.org").with_result_type(ResultType::UrlsOnly))
        .unwrap();
    let owners: Vec<&str> = hits
        .iter()
        .map(|h| match &h.item {
            SearchItem::Url(u) => u.containing_block_id.as_str(),
            _ => "",
        })
        .collect();
    assert_eq!(owners, vec!["a", "b"]);
}

#[test]
fn missing_page_gives_not_found() {
    let r = logseq_index::use_cases::links_for_found(None);
    assert!(matches!(r, Err(logseq_index::base::DomainError::NotFound(_))));
}
