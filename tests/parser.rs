use logseq_index::parser::{LogseqMarkdownParser, ParseError};
use logseq_index::value_objects::PageId;

#[test]
fn test_calculate_indent_level() {
    assert_eq!(LogseqMarkdownParser::calculate_indent_level("- Text"), 0);
    assert_eq!(LogseqMarkdownParser::calculate_indent_level("\t- Text"), 1);
    assert_eq!(LogseqMarkdownParser::calculate_indent_level("  - Text"), 1);
    assert_eq!(LogseqMarkdownParser::calculate_indent_level("\t\t- Text"), 2);
    assert_eq!(LogseqMarkdownParser::calculate_indent_level("    - Text"), 2);
}

#[test]
fn test_extract_content() {
    assert_eq!(LogseqMarkdownParser::extract_content("- Text"), "Text");
    assert_eq!(LogseqMarkdownParser::extract_content("* Text"), "Text");
    assert_eq!(LogseqMarkdownParser::extract_content("+ Text"), "Text");
    assert_eq!(LogseqMarkdownParser::extract_content("  - Text"), "Text");
    assert_eq!(LogseqMarkdownParser::extract_content("Text without bullet"), "Text without bullet");
}

#[test]
fn test_extract_urls() {
    let content = "Check out https://example.com and http://test.org for more info.";
    let urls = LogseqMarkdownParser::extract_urls(content);

    assert_eq!(urls.len(), 2);
    assert_eq!(urls[0].as_str(), "https://example.com");
    assert_eq!(urls[1].as_str(), "http://test.org");
}

#[test]
fn test_extract_page_references() {
    let content = "This mentions [[page name]] and #tag and [[another page]]";
    let refs = LogseqMarkdownParser::extract_page_references(content);

    assert_eq!(refs.len(), 3);
    assert_eq!(refs[0].title(), "page name");
    assert!(!refs[0].is_tag());
    assert_eq!(refs[1].title(), "tag");
    assert!(refs[1].is_tag());
    assert_eq!(refs[2].title(), "another page");
    assert!(!refs[2].is_tag());
}

#[test]
fn test_parse_simple_markdown() {
    let content = "- First block\n- Second block\n  - Nested block\n- Third block";
    let page_id = PageId::new("test-page").unwrap();

    let page = LogseqMarkdownParser::parse_content(content, page_id, "Test Page".to_string()).unwrap();

    assert_eq!(page.title(), "Test Page");
    assert_eq!(page.root_blocks().len(), 3);
}

#[test]
fn test_parse_with_urls_and_references() {
    let content = "- Check https://example.com\n- See [[related page]] for more\n- Don't forget #tag";
    let page_id = PageId::new("test-page").unwrap();

    let page = LogseqMarkdownParser::parse_content(content, page_id, "Test Page".to_string()).unwrap();

    let all_blocks: Vec<_> = page.all_blocks().collect();
    assert_eq!(all_blocks.len(), 3);

    let block1 = all_blocks[0];
    assert_eq!(block1.urls().len(), 1);

    let block2 = all_blocks[1];
    assert_eq!(block2.page_references().len(), 1);

    let block3 = all_blocks[2];
    assert_eq!(block3.page_references().len(), 1);
}

#[test]
fn bare_markers_and_odd_spacing() {
    assert_eq!(LogseqMarkdownParser::extract_content("-text"), "text");
    assert_eq!(LogseqMarkdownParser::extract_content("*   spaced"), "  spaced");
    assert_eq!(LogseqMarkdownParser::extract_content("-  two"), " two");
    assert_eq!(LogseqMarkdownParser::calculate_indent_level("   - Text"), 1);
    assert_eq!(LogseqMarkdownParser::calculate_indent_level(" x\t"), 0);
    assert_eq!(LogseqMarkdownParser::calculate_indent_level(" \tx"), 1);
    assert_eq!(LogseqMarkdownParser::calculate_indent_level("   x  y"), 1);
    assert_eq!(LogseqMarkdownParser::calculate_indent_level("   \t  x"), 3);
}

#[test]
fn blank_lines_and_empty_bullets_are_dropped() {
    let entries = LogseqMarkdownParser::parse_blocks("- a\n\n   \n- \n-\n  - b\r\n");
    assert_eq!(entries.len(), 2);
    assert_eq!(entries[0], (0, "a".to_string()));
    assert_eq!(entries[1], (1, "b".to_string()));
}

#[test]
fn missing_parent_level_is_invalid_markdown() {
    let r = LogseqMarkdownParser::parse_content("- a\n    - too deep", PageId::new("p").unwrap(), "P".to_string());
    assert!(matches!(r, Err(ParseError::InvalidMarkdown(_))));
    let r2 = LogseqMarkdownParser::parse_content("  - starts indented", PageId::new("p").unwrap(), "P".to_string());
    assert!(matches!(r2, Err(ParseError::InvalidMarkdown(_))));
}

#[test]
fn deeper_frames_are_dropped_after_a_shallower_line() {
    let text = "- a\n  - b\n    - c\n- d\n    - e";
    let r = LogseqMarkdownParser::parse_content(text, PageId::new("p").unwrap(), "P".to_string());
    assert!(matches!(r, Err(ParseError::InvalidMarkdown(_))));
}

#[test]
fn tags_stop_at_punctuation_and_need_a_boundary() {
    let refs = LogseqMarkdownParser::extract_page_references("#rust, a#b #x-y [[]] [[open");
    let titles: Vec<(&str, bool)> = refs.iter().map(|r| (r.title(), r.is_tag())).collect();
    assert_eq!(titles, vec![("rust", true), ("x", true)]);
}

#[test]
fn urls_lose_trailing_punctuation() {
    let urls = LogseqMarkdownParser::extract_urls("see (https://a.com/x), https://b.org!! and ftp://c");
    let texts: Vec<&str> = urls.iter().map(|u| u.as_str()).collect();
    assert_eq!(texts, vec!["https://b.org"]);
    let urls2 = LogseqMarkdownParser::extract_urls("https://a.com/x). https://a.com/x");
    assert_eq!(urls2.len(), 2);
    assert_eq!(urls2[0].as_str(), "https://a.com/x");
}

#[test]
fn parse_errors_render_with_their_kind() {
    let e = ParseError::InvalidMarkdown("oops".to_string());
    assert_eq!(e.to_string(), "Invalid markdown structure: oops");
}

#[test]
fn parsed_blocks_get_distinct_identifiers() {
    let page = LogseqMarkdownParser::parse_content("- a\n- b\n  - c", PageId::new("p").unwrap(), "P".to_string()).unwrap();
    let ids: Vec<&str> = page.all_blocks().map(|b| b.id().as_str()).collect();
    assert_eq!(ids.len(), 3);
    assert!(ids.iter().all(|i| i.starts_with("block-")));
    assert_ne!(ids[0], ids[1]);
    assert_ne!(ids[1], ids[2]);
}

#[test]
fn rendered_entries_parse_back_to_the_same_entries() {
    let text = "- a\n\t- b [[x]]\n\t\t- c\n  - d\n\n- e #t\n  - f https://y.com";
    let entries = LogseqMarkdownParser::parse_blocks(text);
    let rendered = logseq_index::render::render_entries(&entries);
    assert_eq!(rendered, "- a\n  - b [[x]]\n    - c\n  - d\n- e #t\n  - f https://y.com\n");
    assert_eq!(LogseqMarkdownParser::parse_blocks(&rendered), entries);
}

#[test]
fn block_ids_are_numbered_under_one_page_prefix() {
    let ids = logseq_index::parser::block_ids(12);
    assert_eq!(ids.len(), 12);
    assert!(ids[0].as_str().ends_with("-0"));
    assert!(ids[11].as_str().ends_with("-11"));
    let prefix = &ids[0].as_str()[..ids[0].as_str().len() - 1];
    assert!(ids[1].as_str().starts_with(prefix));
    let empty = LogseqMarkdownParser::parse_content("", PageId::new("p").unwrap(), "P".to_string()).unwrap();
    assert_eq!(empty.all_blocks().count(), 0);
}
