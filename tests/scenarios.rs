use logseq_index::base::Entity;
use logseq_index::parser::LogseqMarkdownParser;
use logseq_index::repository::{InMemoryPageRepository, PageRepository};
use logseq_index::value_objects::PageId;

const SCENARIO_A: &str = "- im starting to make some [[notes]] about various things like [[logseq]]\n  - https://logseq.com/\n  - I'd like to stay up to date on the github repo: https://github.com/logseq/logseq\n    - [[workflow]] needs an update thought";

#[test]
fn tree_assembly_from_markdown() {
    let page = LogseqMarkdownParser::parse_content(SCENARIO_A, PageId::new("a").unwrap(), "A".to_string()).unwrap();
    assert_eq!(page.all_blocks().count(), 4);
    let roots = page.root_blocks();
    assert_eq!(roots.len(), 1);
    assert_eq!(roots[0].child_ids().len(), 2);
    let titles: Vec<&str> = roots[0].page_references().iter().map(|r| r.title()).collect();
    assert_eq!(titles, vec!["notes", "logseq"]);
    let ctx = page.get_urls_with_context();
    let github = ctx.iter().find(|(u, _, _)| u.as_str() == "https://github.com/logseq/logseq").unwrap();
    let anc: Vec<&str> = github.1.iter().map(|r| r.title()).collect();
    let desc: Vec<&str> = github.2.iter().map(|r| r.title()).collect();
    assert_eq!(anc, vec!["notes", "logseq"]);
    assert_eq!(desc, vec!["workflow"]);
}

#[test]
fn context_propagation_around_a_url() {
    let text = "- top\n  - [[notes]]\n    - https://google.com\n      - this is [[evil tech]]";
    let page = LogseqMarkdownParser::parse_content(text, PageId::new("b").unwrap(), "B".to_string()).unwrap();
    let ctx = page.get_urls_with_context();
    assert_eq!(ctx.len(), 1);
    let anc: Vec<&str> = ctx[0].1.iter().map(|r| r.title()).collect();
    let desc: Vec<&str> = ctx[0].2.iter().map(|r| r.title()).collect();
    assert_eq!(anc, vec!["notes"]);
    assert_eq!(desc, vec!["evil tech"]);
}

#[test]
fn every_block_is_linked_to_its_parent_or_the_roots() {
    let page = LogseqMarkdownParser::parse_content(SCENARIO_A, PageId::new("a").unwrap(), "A".to_string()).unwrap();
    let roots: Vec<String> = page.root_blocks().iter().map(|b| b.id().as_str().to_string()).collect();
    for b in page.all_blocks() {
        match b.parent_id() {
            None => assert!(roots.contains(&b.id().as_str().to_string())),
            Some(p) => assert!(page.get_block(p).unwrap().child_ids().contains(b.id())),
        }
    }
}

#[test]
fn hierarchy_paths_run_from_a_root_to_the_block() {
    let page = LogseqMarkdownParser::parse_content(SCENARIO_A, PageId::new("a").unwrap(), "A".to_string()).unwrap();
    for b in page.all_blocks() {
        let path = page.get_hierarchy_path(b.id());
        assert_eq!(path.len(), 1 + page.get_ancestors(b.id()).len());
        assert_eq!(path.last().unwrap().id(), b.id());
        assert!(path[0].parent_id().is_none());
    }
    let root = page.root_blocks()[0].id().clone();
    for d in page.get_descendants(&root) {
        assert!(page.get_hierarchy_path(d.id()).iter().any(|x| x.id() == &root));
    }
}

#[test]
fn saving_twice_keeps_one_copy() {
    let page = LogseqMarkdownParser::parse_content(SCENARIO_A, PageId::new("a").unwrap(), "A".to_string()).unwrap();
    let mut repo = InMemoryPageRepository::new();
    repo.save(page.clone()).unwrap();
    repo.save(page.clone()).unwrap();
    assert_eq!(repo.len(), 1);
    let loaded = repo.find_by_id(&PageId::new("a").unwrap()).unwrap().unwrap();
    assert_eq!(loaded.title(), "A");
    assert_eq!(loaded.all_blocks().count(), 4);
    assert_eq!(loaded.all_urls().len(), 2);
    assert_eq!(loaded.id().as_str(), "a");
}

fn walk(page: &logseq_index::aggregates::Page, b: &logseq_index::entities::Block, depth: usize, out: &mut String) {
    out.push_str(&"  ".repeat(depth));
    out.push_str("- ");
    out.push_str(b.content().as_str());
    out.push('\n');
    for c in b.child_ids() {
        walk(page, page.get_block(c).unwrap(), depth + 1, out);
    }
}

fn render(page: &logseq_index::aggregates::Page) -> String {
    let mut out = String::new();
    for r in page.root_blocks() {
        walk(page, r, 0, &mut out);
    }
    out
}

fn shape(page: &logseq_index::aggregates::Page) -> Vec<(String, Option<String>)> {
    page.all_blocks()
        .map(|b| {
            let parent = b.parent_id().map(|p| page.get_block(p).unwrap().content().as_str().to_string());
            (b.content().as_str().to_string(), parent)
        })
        .collect()
}

#[test]
fn rendering_parsed_bullets_gives_back_the_tree() {
    let text = "- a\n\t- b\n\t\t- c\n  - d\n- e\n  - f [[x]] https://y.com";
    let page = LogseqMarkdownParser::parse_content(text, PageId::new("r").unwrap(), "R".to_string()).unwrap();
    let again = LogseqMarkdownParser::parse_content(&render(&page), PageId::new("r").unwrap(), "R".to_string()).unwrap();
    assert_eq!(shape(&page), shape(&again));
    assert_eq!(again.all_urls().len(), 1);
}
