use logseq_index::aggregates::Page;
use logseq_index::base::Entity;
use logseq_index::entities::Block;
use logseq_index::value_objects::{BlockContent, BlockId, IndentLevel, PageId, PageReference, Url};

fn chain_page() -> (Page, BlockId, BlockId, BlockId) {
    let page_id = PageId::new("page-1").unwrap();
    let mut page = Page::new(page_id, "Test Page".to_string());

    let root_id = BlockId::new("root").unwrap();
    let root = Block::new_root(root_id.clone(), BlockContent::new("Root"));
    page.add_block(root).unwrap();

    let child1_id = BlockId::new("child1").unwrap();
    let child1 = Block::new_child(child1_id.clone(), BlockContent::new("Child 1"), root_id.clone(), IndentLevel::new(1));
    page.add_block(child1).unwrap();

    let child2_id = BlockId::new("child2").unwrap();
    let child2 = Block::new_child(child2_id.clone(), BlockContent::new("Child 2"), child1_id.clone(), IndentLevel::new(2));
    page.add_block(child2).unwrap();
    (page, root_id, child1_id, child2_id)
}

#[test]
fn test_create_page() {
    let page_id = PageId::new("page-1").unwrap();
    let page = Page::new(page_id.clone(), "Test Page".to_string());

    assert_eq!(page.id().as_str(), "page-1");
    assert_eq!(page.title(), "Test Page");
    assert_eq!(page.root_blocks().len(), 0);
}

#[test]
fn test_add_root_block() {
    let page_id = PageId::new("page-1").unwrap();
    let mut page = Page::new(page_id, "Test Page".to_string());

    let block_id = BlockId::new("block-1").unwrap();
    let content = BlockContent::new("Root block");
    let block = Block::new_root(block_id.clone(), content);

    page.add_block(block).unwrap();

    assert_eq!(page.root_blocks().len(), 1);
    assert!(page.get_block(&block_id).is_some());
}

#[test]
fn test_add_child_block() {
    let page_id = PageId::new("page-1").unwrap();
    let mut page = Page::new(page_id, "Test Page".to_string());

    let parent_id = BlockId::new("block-1").unwrap();
    let parent = Block::new_root(parent_id.clone(), BlockContent::new("Parent block"));
    page.add_block(parent).unwrap();

    let child_id = BlockId::new("block-2").unwrap();
    let child = Block::new_child(child_id.clone(), BlockContent::new("Child block"), parent_id.clone(), IndentLevel::new(1));
    page.add_block(child).unwrap();

    assert_eq!(page.root_blocks().len(), 1);
    let parent = page.get_block(&parent_id).unwrap();
    assert_eq!(parent.child_ids().len(), 1);
    assert_eq!(parent.child_ids()[0], child_id);
}

#[test]
fn test_add_child_without_parent_fails() {
    let page_id = PageId::new("page-1").unwrap();
    let mut page = Page::new(page_id, "Test Page".to_string());

    let parent_id = BlockId::new("nonexistent").unwrap();
    let child_id = BlockId::new("block-1").unwrap();
    let content = BlockContent::new("Child block");
    let child = Block::new_child(child_id, content, parent_id, IndentLevel::new(1));

    let result = page.add_block(child);
    assert!(result.is_err());
}

#[test]
fn test_get_ancestors() {
    let (page, root_id, child1_id, child2_id) = chain_page();
    let ancestors = page.get_ancestors(&child2_id);
    assert_eq!(ancestors.len(), 2);
    assert_eq!(ancestors[0].id(), &child1_id);
    assert_eq!(ancestors[1].id(), &root_id);
}

#[test]
fn test_get_descendants() {
    let (page, root_id, _, _) = chain_page();
    let descendants = page.get_descendants(&root_id);
    assert_eq!(descendants.len(), 2);
}

#[test]
fn test_get_hierarchy_path() {
    let (page, root_id, child1_id, child2_id) = chain_page();
    let path = page.get_hierarchy_path(&child2_id);
    assert_eq!(path.len(), 3);
    assert_eq!(path[0].id(), &root_id);
    assert_eq!(path[1].id(), &child1_id);
    assert_eq!(path[2].id(), &child2_id);
}

#[test]
fn test_get_urls_with_context() {
    let page_id = PageId::new("page-1").unwrap();
    let mut page = Page::new(page_id, "Test Page".to_string());

    let root_id = BlockId::new("root").unwrap();
    let mut root = Block::new_root(root_id.clone(), BlockContent::new("Root"));
    root.add_page_reference(PageReference::from_brackets("parent-ref").unwrap());
    page.add_block(root).unwrap();

    let child_id = BlockId::new("child").unwrap();
    let mut child = Block::new_child(child_id.clone(), BlockContent::new("Child"), root_id.clone(), IndentLevel::new(1));
    child.add_url(Url::new("https://example.com").unwrap());
    page.add_block(child).unwrap();

    let grandchild_id = BlockId::new("grandchild").unwrap();
    let mut grandchild = Block::new_child(grandchild_id.clone(), BlockContent::new("Grandchild"), child_id.clone(), IndentLevel::new(2));
    grandchild.add_page_reference(PageReference::from_brackets("child-ref").unwrap());
    page.add_block(grandchild).unwrap();

    let urls_with_context = page.get_urls_with_context();
    assert_eq!(urls_with_context.len(), 1);

    let (url, ancestor_refs, descendant_refs) = &urls_with_context[0];
    assert_eq!(url.as_str(), "https://example.com");
    assert_eq!(ancestor_refs.len(), 1);
    assert_eq!(descendant_refs.len(), 1);
}

#[test]
fn test_remove_block() {
    let page_id = PageId::new("page-1").unwrap();
    let mut page = Page::new(page_id, "Test Page".to_string());

    let root_id = BlockId::new("root").unwrap();
    let root = Block::new_root(root_id.clone(), BlockContent::new("Root"));
    page.add_block(root).unwrap();

    let child_id = BlockId::new("child").unwrap();
    let child = Block::new_child(child_id.clone(), BlockContent::new("Child"), root_id.clone(), IndentLevel::new(1));
    page.add_block(child).unwrap();

    page.remove_block(&child_id).unwrap();

    assert!(page.get_block(&child_id).is_none());
    let root = page.get_block(&root_id).unwrap();
    assert_eq!(root.child_ids().len(), 0);
}

#[test]
fn removing_a_block_removes_its_subtree() {
    let (mut page, root_id, child1_id, child2_id) = chain_page();
    let other = Block::new_root(BlockId::new("other").unwrap(), BlockContent::new("Other"));
    page.add_block(other).unwrap();
    page.remove_block(&child1_id).unwrap();
    assert!(page.get_block(&child1_id).is_none());
    assert!(page.get_block(&child2_id).is_none());
    assert!(page.get_block(&root_id).is_some());
    assert_eq!(page.root_blocks().len(), 2);
    page.remove_block(&root_id).unwrap();
    assert_eq!(page.root_blocks().len(), 1);
    assert_eq!(page.root_blocks()[0].id().as_str(), "other");
}

#[test]
fn removing_an_unknown_block_fails() {
    let (mut page, _, _, _) = chain_page();
    let err = page.remove_block(&BlockId::new("missing").unwrap());
    assert!(matches!(err, Err(logseq_index::base::DomainError::NotFound(_))));
    assert_eq!(page.all_blocks().count(), 3);
}

#[test]
fn adding_a_known_block_again_replaces_it() {
    let (mut page, root_id, child1_id, child2_id) = chain_page();
    let again = Block::new_root(root_id.clone(), BlockContent::new("Again"));
    page.add_block(again).unwrap();
    assert_eq!(page.root_blocks().len(), 1);
    assert_eq!(page.all_blocks().count(), 3);
    let root = page.get_block(&root_id).unwrap();
    assert_eq!(root.content().as_str(), "Again");
    assert_eq!(root.child_ids(), &[child1_id.clone()][..]);
    let cycle = Block::new_child(child1_id.clone(), BlockContent::new("loop"), child2_id.clone(), IndentLevel::new(3));
    assert!(page.add_block(cycle).is_err());
    assert_eq!(page.get_block(&child1_id).unwrap().content().as_str(), "Child 1");
    let moved = Block::new_child(child2_id.clone(), BlockContent::new("moved"), root_id.clone(), IndentLevel::new(1));
    page.add_block(moved).unwrap();
    assert!(page.get_block(&child1_id).unwrap().child_ids().is_empty());
    let root = page.get_block(&root_id).unwrap();
    assert_eq!(root.child_ids(), &[child1_id.clone(), child2_id.clone()][..]);
    assert_eq!(page.get_block(&child2_id).unwrap().content().as_str(), "moved");
    assert_eq!(page.get_hierarchy_path(&child2_id).len(), 2);
}

#[test]
fn re_parenting_moves_the_subtree() {
    let mut page = Page::new(PageId::new("p").unwrap(), "P".to_string());
    let a = BlockId::new("a").unwrap();
    let b = BlockId::new("b").unwrap();
    let c = BlockId::new("c").unwrap();
    let d = BlockId::new("d").unwrap();
    page.add_block(Block::new_root(a.clone(), BlockContent::new("a"))).unwrap();
    page.add_block(Block::new_child(b.clone(), BlockContent::new("b"), a.clone(), IndentLevel::new(1))).unwrap();
    page.add_block(Block::new_child(d.clone(), BlockContent::new("d"), b.clone(), IndentLevel::new(2))).unwrap();
    page.add_block(Block::new_root(c.clone(), BlockContent::new("c"))).unwrap();
    page.add_block(Block::new_child(b.clone(), BlockContent::new("b2"), c.clone(), IndentLevel::new(1))).unwrap();
    assert!(page.get_block(&a).unwrap().child_ids().is_empty());
    assert_eq!(page.get_block(&c).unwrap().child_ids(), &[b.clone()][..]);
    assert_eq!(page.get_block(&b).unwrap().child_ids(), &[d.clone()][..]);
    let path: Vec<&str> = page.get_hierarchy_path(&d).iter().map(|x| x.id().as_str()).collect();
    assert_eq!(path, vec!["c", "b", "d"]);
    page.add_block(Block::new_root(b.clone(), BlockContent::new("b3"))).unwrap();
    let roots: Vec<&str> = page.root_blocks().iter().map(|x| x.id().as_str()).collect();
    assert_eq!(roots, vec!["a", "c", "b"]);
    assert!(page.get_block(&c).unwrap().child_ids().is_empty());
}

#[test]
fn descendants_come_in_pre_order() {
    let mut page = Page::new(PageId::new("p").unwrap(), "P".to_string());
    let a = BlockId::new("a").unwrap();
    page.add_block(Block::new_root(a.clone(), BlockContent::new("a"))).unwrap();
    let b = BlockId::new("b").unwrap();
    page.add_block(Block::new_child(b.clone(), BlockContent::new("b"), a.clone(), IndentLevel::new(1))).unwrap();
    let c = BlockId::new("c").unwrap();
    page.add_block(Block::new_child(c.clone(), BlockContent::new("c"), a.clone(), IndentLevel::new(1))).unwrap();
    let d = BlockId::new("d").unwrap();
    page.add_block(Block::new_child(d.clone(), BlockContent::new("d"), b.clone(), IndentLevel::new(2))).unwrap();
    let names: Vec<&str> = page.get_descendants(&a).iter().map(|x| x.id().as_str()).collect();
    assert_eq!(names, vec!["b", "d", "c"]);
    let path: Vec<&str> = page.get_hierarchy_path(&d).iter().map(|x| x.id().as_str()).collect();
    assert_eq!(path, vec!["a", "b", "d"]);
    assert_eq!(page.get_hierarchy_path(&d).len(), 1 + page.get_ancestors(&d).len());
    assert!(page.get_hierarchy_path(&BlockId::new("zz").unwrap()).is_empty());
}

#[test]
fn references_with_context_list_urls_around() {
    let mut page = Page::new(PageId::new("p").unwrap(), "P".to_string());
    let a = BlockId::new("a").unwrap();
    let mut root = Block::new_root(a.clone(), BlockContent::new("a"));
    root.add_url(Url::new("https://up.com").unwrap());
    page.add_block(root).unwrap();
    let b = BlockId::new("b").unwrap();
    let mut mid = Block::new_child(b.clone(), BlockContent::new("b"), a.clone(), IndentLevel::new(1));
    mid.add_page_reference(PageReference::from_tag("t").unwrap());
    page.add_block(mid).unwrap();
    let mut leaf = Block::new_child(BlockId::new("c").unwrap(), BlockContent::new("c"), b.clone(), IndentLevel::new(2));
    leaf.add_url(Url::new("https://down.com").unwrap());
    page.add_block(leaf).unwrap();
    let ctx = page.get_page_references_with_context();
    assert_eq!(ctx.len(), 1);
    assert_eq!(ctx[0].1.len(), 1);
    assert_eq!(ctx[0].1[0].as_str(), "https://up.com");
    assert_eq!(ctx[0].2[0].as_str(), "https://down.com");
    assert_eq!(page.all_urls().len(), 2);
}
