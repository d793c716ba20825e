use logseq_index::aggregates::Page;
use logseq_index::entities::Block;
use logseq_index::value_objects::{BlockContent, BlockId, IndentLevel, PageId, PageReference, Url};

fn child(id: &str, content: &str, parent: &BlockId, level: usize) -> Block {
    Block::new_child(BlockId::new(id).unwrap(), BlockContent::new(content), parent.clone(), IndentLevel::new(level))
}

#[test]
fn test_logseq_page_hierarchy_example() {
    let page_id = PageId::new("test-page").unwrap();
    let mut page = Page::new(page_id, "Test Page".to_string());

    let block1_id = BlockId::new("block-1").unwrap();
    let mut block1 = Block::new_root(
        block1_id.clone(),
        BlockContent::new("im starting to make some notes about various things like logseq"),
    );
    block1.add_page_reference(PageReference::from_brackets("notes").unwrap());
    block1.add_page_reference(PageReference::from_brackets("logseq").unwrap());
    page.add_block(block1).unwrap();

    let mut block1_1 = child("block-1-1", "https://logseq.com/", &block1_id, 1);
    block1_1.add_url(Url::new("https://logseq.com/").unwrap());
    page.add_block(block1_1).unwrap();

    let block1_2_id = BlockId::new("block-1-2").unwrap();
    let mut block1_2 = child("block-1-2", "I'd like to stay up to date on the github repo", &block1_id, 1);
    block1_2.add_url(Url::new("https://github.com/logseq/logseq").unwrap());
    page.add_block(block1_2).unwrap();

    let mut block1_2_1 = child("block-1-2-1", "workflow needs an update thought", &block1_2_id, 2);
    block1_2_1.add_page_reference(PageReference::from_brackets("workflow").unwrap());
    page.add_block(block1_2_1).unwrap();

    let block2_id = BlockId::new("block-2").unwrap();
    let block2 = Block::new_root(block2_id.clone(), BlockContent::new("alright again with the updates!"));
    page.add_block(block2).unwrap();

    let block2_1_id = BlockId::new("block-2-1").unwrap();
    let mut block2_1 = child("block-2-1", "notes", &block2_id, 1);
    block2_1.add_page_reference(PageReference::from_brackets("notes").unwrap());
    page.add_block(block2_1).unwrap();

    let block2_1_1_id = BlockId::new("block-2-1-1").unwrap();
    let mut block2_1_1 = child("block-2-1-1", "https://google.com", &block2_1_id, 2);
    block2_1_1.add_url(Url::new("https://google.com").unwrap());
    page.add_block(block2_1_1).unwrap();

    let block2_1_1_1_id = BlockId::new("block-2-1-1-1").unwrap();
    let mut block2_1_1_1 = child("block-2-1-1-1", "this is evil tech", &block2_1_1_id, 3);
    block2_1_1_1.add_page_reference(PageReference::from_brackets("evil tech").unwrap());
    page.add_block(block2_1_1_1).unwrap();

    let block2_1_2 = child("block-2-1-2", "more notes", &block2_1_id, 2);
    page.add_block(block2_1_2).unwrap();

    let mut block2_1_3 = child("block-2-1-3", "https://obsidian.md/", &block2_1_id, 2);
    block2_1_3.add_url(Url::new("https://obsidian.md/").unwrap());
    page.add_block(block2_1_3).unwrap();

    let block3_id = BlockId::new("block-3").unwrap();
    let block3 = Block::new_root(block3_id.clone(), BlockContent::new("more bullets!"));
    page.add_block(block3).unwrap();

    let block3_1 = child("block-3-1", "bullet", &block3_id, 1);
    page.add_block(block3_1).unwrap();

    let block4_id = BlockId::new("block-4").unwrap();
    let mut block4 = Block::new_root(block4_id.clone(), BlockContent::new("UI Tools"));
    block4.add_page_reference(PageReference::from_brackets("UI Tools").unwrap());
    page.add_block(block4).unwrap();

    let mut block4_1 = child("block-4-1", "https://ui.shadcn.com/", &block4_id, 1);
    block4_1.add_url(Url::new("https://ui.shadcn.com/").unwrap());
    page.add_block(block4_1).unwrap();

    let all_urls = page.all_urls();
    assert_eq!(all_urls.len(), 5);

    let all_refs = page.all_page_references();
    assert_eq!(all_refs.len(), 6);

    let urls_with_context = page.get_urls_with_context();
    let google_url_context = urls_with_context
        .iter()
        .find(|(url, _, _)| url.as_str() == "https://google.com")
        .unwrap();
    let (_, ancestor_refs, descendant_refs) = google_url_context;
    assert_eq!(ancestor_refs.len(), 1);
    assert_eq!(ancestor_refs[0].title(), "notes");
    assert_eq!(descendant_refs.len(), 1);
    assert_eq!(descendant_refs[0].title(), "evil tech");

    let refs_with_context = page.get_page_references_with_context();
    let workflow_ref_context = refs_with_context
        .iter()
        .find(|(ref_val, _, _)| ref_val.title() == "workflow")
        .unwrap();
    let (_, ancestor_urls, descendant_urls) = workflow_ref_context;
    assert_eq!(ancestor_urls.len(), 1);
    assert_eq!(ancestor_urls[0].as_str(), "https://github.com/logseq/logseq");
    assert_eq!(descendant_urls.len(), 0);

    let path = page.get_hierarchy_path(&block2_1_1_1_id);
    assert_eq!(path.len(), 4);

    let descendants = page.get_descendants(&block2_1_id);
    assert_eq!(descendants.len(), 4);
}

#[test]
fn test_page_reference_filtering() {
    let page_id = PageId::new("test-page").unwrap();
    let mut page = Page::new(page_id, "Test Page".to_string());

    let block_id = BlockId::new("block-1").unwrap();
    let mut block = Block::new_root(block_id.clone(), BlockContent::new("Test block"));
    block.add_page_reference(PageReference::from_brackets("regular-page").unwrap());
    block.add_page_reference(PageReference::from_tag("tag-page").unwrap());
    page.add_block(block).unwrap();

    let refs = page.all_page_references();
    assert_eq!(refs.len(), 2);

    let tag_count = refs.iter().filter(|r| r.is_tag()).count();
    let page_ref_count = refs.iter().filter(|r| r.is_page_reference()).count();
    assert_eq!(tag_count, 1);
    assert_eq!(page_ref_count, 1);
}
