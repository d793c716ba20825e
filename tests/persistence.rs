use logseq_index::aggregates::Page;
use logseq_index::base::{DomainError, Entity};
use logseq_index::parser::LogseqMarkdownParser;
use logseq_index::persistence::{page_from_rows, page_rows, BlockRow, PageRows, UrlRow};
use logseq_index::value_objects::PageId;

const TEXT: &str = "- root [[a]] https://x.com\n  - first #t\n    - deep https://y.org\n  - second\n- other [[b]]";

fn same_tree(a: &Page, b: &Page) {
    assert_eq!(a.title(), b.title());
    assert_eq!(a.id(), b.id());
    let xs: Vec<_> = a.all_blocks().collect();
    let ys: Vec<_> = b.all_blocks().collect();
    assert_eq!(xs.len(), ys.len());
    for x in &xs {
        let y = b.get_block(x.id()).unwrap();
        assert_eq!(x.content(), y.content());
        assert_eq!(x.parent_id(), y.parent_id());
        assert_eq!(x.child_ids(), y.child_ids());
        assert_eq!(x.urls(), y.urls());
        assert_eq!(x.page_references(), y.page_references());
    }
}

#[test]
fn saved_rows_load_back_to_the_same_page() {
    let page = LogseqMarkdownParser::parse_content(TEXT, PageId::new("p").unwrap(), "P".to_string()).unwrap();
    let rows = page_rows(&page);
    assert_eq!(rows.blocks.len(), 5);
    assert_eq!(rows.urls.len(), 2);
    assert_eq!(rows.references.len(), 3);
    assert_eq!(rows.children.len(), 3);
    assert!(rows.blocks.iter().enumerate().all(|(i, r)| r.position == i));
    let loaded = page_from_rows(&rows).unwrap();
    same_tree(&page, &loaded);
}

#[test]
fn saving_twice_writes_the_same_rows() {
    let page = LogseqMarkdownParser::parse_content(TEXT, PageId::new("p").unwrap(), "P".to_string()).unwrap();
    let first = page_rows(&page);
    let second = page_rows(&page_from_rows(&first).unwrap());
    assert_eq!(first.blocks.len(), second.blocks.len());
    for (a, b) in first.blocks.iter().zip(second.blocks.iter()) {
        assert_eq!((&a.id, &a.parent_id, &a.content, a.position), (&b.id, &b.parent_id, &b.content, b.position));
    }
    assert_eq!(first.urls.len(), second.urls.len());
    assert_eq!(first.children.len(), second.children.len());
}

#[test]
fn rows_with_an_unknown_parent_do_not_load() {
    let rows = PageRows {
        page_id: "p".to_string(),
        title: "P".to_string(),
        blocks: vec![BlockRow {
            id: "b".to_string(),
            parent_id: Some("missing".to_string()),
            content: "x".to_string(),
            indent_level: 1,
            position: 0,
        }],
        children: vec![],
        urls: vec![],
        references: vec![],
    };
    assert!(matches!(page_from_rows(&rows), Err(DomainError::InvalidOperation(_))));
}

#[test]
fn rows_with_a_bad_url_do_not_load() {
    let rows = PageRows {
        page_id: "p".to_string(),
        title: "P".to_string(),
        blocks: vec![BlockRow { id: "b".to_string(), parent_id: None, content: "x".to_string(), indent_level: 0, position: 0 }],
        children: vec![],
        urls: vec![UrlRow { block_id: "b".to_string(), url: "nope".to_string() }, UrlRow { block_id: "c".to_string(), url: "also nope".to_string() }],
        references: vec![],
    };
    assert!(page_from_rows(&rows).is_err());
    let empty_id = PageRows { page_id: String::new(), title: "P".to_string(), blocks: vec![], children: vec![], urls: vec![], references: vec![] };
    assert!(matches!(page_from_rows(&empty_id), Err(DomainError::InvalidValue(_))));
}
