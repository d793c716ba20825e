use logseq_index::entities::Block;
use logseq_index::value_objects::{BlockContent, BlockId, IndentLevel, PageReference, Url};

#[test]
fn test_create_root_block() {
    let id = BlockId::new("block-1").unwrap();
    let content = BlockContent::new("Root block content");
    let block = Block::new_root(id.clone(), content);

    assert_eq!(block.id().as_str(), "block-1");
    assert!(block.is_root());
    assert_eq!(block.indent_level(), IndentLevel::root());
    assert!(block.parent_id().is_none());
    assert!(!block.has_children());
}

#[test]
fn test_create_child_block() {
    let parent_id = BlockId::new("block-1").unwrap();
    let child_id = BlockId::new("block-2").unwrap();
    let content = BlockContent::new("Child block content");

    let block = Block::new_child(child_id.clone(), content, parent_id.clone(), IndentLevel::new(1));

    assert_eq!(block.id().as_str(), "block-2");
    assert!(!block.is_root());
    assert_eq!(block.indent_level(), IndentLevel::new(1));
    assert_eq!(block.parent_id(), Some(&parent_id));
}

#[test]
fn test_add_child_to_block() {
    let id = BlockId::new("block-1").unwrap();
    let content = BlockContent::new("Parent block");
    let mut block = Block::new_root(id, content);

    let child_id = BlockId::new("block-2").unwrap();
    block.add_child(child_id.clone());

    assert!(block.has_children());
    assert_eq!(block.child_ids().len(), 1);
    assert_eq!(block.child_ids()[0], child_id);
}

#[test]
fn test_add_duplicate_child_ignored() {
    let id = BlockId::new("block-1").unwrap();
    let content = BlockContent::new("Parent block");
    let mut block = Block::new_root(id, content);

    let child_id = BlockId::new("block-2").unwrap();
    block.add_child(child_id.clone());
    block.add_child(child_id.clone());

    assert_eq!(block.child_ids().len(), 1);
}

#[test]
fn test_remove_child_from_block() {
    let id = BlockId::new("block-1").unwrap();
    let content = BlockContent::new("Parent block");
    let mut block = Block::new_root(id, content);

    let child_id = BlockId::new("block-2").unwrap();
    block.add_child(child_id.clone());
    assert!(block.has_children());

    block.remove_child(&child_id);
    assert!(!block.has_children());
}

#[test]
fn test_add_url_to_block() {
    let id = BlockId::new("block-1").unwrap();
    let content = BlockContent::new("Block with URL");
    let mut block = Block::new_root(id, content);

    let url = Url::new("https://example.com").unwrap();
    block.add_url(url.clone());

    assert_eq!(block.urls().len(), 1);
    assert_eq!(block.urls()[0], url);
}

#[test]
fn test_add_page_reference_to_block() {
    let id = BlockId::new("block-1").unwrap();
    let content = BlockContent::new("Block with reference");
    let mut block = Block::new_root(id, content);

    let reference = PageReference::from_brackets("referenced-page").unwrap();
    block.add_page_reference(reference.clone());

    assert_eq!(block.page_references().len(), 1);
    assert_eq!(block.page_references()[0], reference);
}

#[test]
fn test_update_block_content() {
    let id = BlockId::new("block-1").unwrap();
    let content = BlockContent::new("Original content");
    let mut block = Block::new_root(id, content);

    let new_content = BlockContent::new("Updated content");
    block.update_content(new_content.clone());

    assert_eq!(block.content(), &new_content);
}

#[test]
fn duplicate_urls_and_references_are_kept_once() {
    let mut block = Block::new_root(BlockId::new("b").unwrap(), BlockContent::new("x"));
    block.add_url(Url::new("https://a.com").unwrap());
    block.add_url(Url::new("https://b.com").unwrap());
    block.add_url(Url::new("https://a.com").unwrap());
    assert_eq!(block.urls().len(), 2);
    assert_eq!(block.urls()[1].as_str(), "https://b.com");
    block.add_page_reference(PageReference::from_tag("t").unwrap());
    block.add_page_reference(PageReference::from_brackets("t").unwrap());
    block.add_page_reference(PageReference::from_tag("t").unwrap());
    assert_eq!(block.page_references().len(), 2);
}

#[test]
fn removing_a_child_keeps_the_others_in_order() {
    let mut block = Block::new_root(BlockId::new("p").unwrap(), BlockContent::new("x"));
    for name in ["a", "b", "c"] {
        block.add_child(BlockId::new(name).unwrap());
    }
    block.remove_child(&BlockId::new("b").unwrap());
    let names: Vec<&str> = block.child_ids().iter().map(|c| c.as_str()).collect();
    assert_eq!(names, vec!["a", "c"]);
    block.set_parent(Some(BlockId::new("q").unwrap()));
    assert!(!block.is_root());
}
