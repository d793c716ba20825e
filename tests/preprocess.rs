use logseq_index::preprocess::TextPreprocessor;

#[test]
fn test_chunk_short_text() {
    let preprocessor = TextPreprocessor::new();
    let text = "This is a short text";
    let chunks = preprocessor.chunk_text(text, 10, 2);
    assert_eq!(chunks.len(), 1);
    assert_eq!(chunks[0], text);
}

#[test]
fn test_chunk_long_text() {
    let preprocessor = TextPreprocessor::new();
    let text = "one two three four five six seven eight nine ten eleven twelve";
    let chunks = preprocessor.chunk_text(text, 5, 2);
    assert!(chunks.len() > 1);
    assert_eq!(chunks[0], "one two three four five");
    assert!(chunks[1].starts_with("four five"));
}

#[test]
fn test_chunk_with_overlap() {
    let preprocessor = TextPreprocessor::new();
    let text = "a b c d e f g h i j";
    let chunks = preprocessor.chunk_text(text, 4, 1);
    assert_eq!(chunks[0], "a b c d");
    assert_eq!(chunks[1], "d e f g");
    assert_eq!(chunks[2], "g h i j");
}

#[test]
fn test_remove_page_references() {
    let preprocessor = TextPreprocessor::new();
    let text = "This is a note about [[machine learning]] and [[AI]]";
    let result = preprocessor.preprocess(text, "", &[]);
    assert!(result.contains("machine learning"));
    assert!(result.contains("AI"));
    assert!(!result.contains("[["));
    assert!(!result.contains("]]"));
}

#[test]
fn test_remove_tags() {
    let preprocessor = TextPreprocessor::new();
    let text = "This note has #programming and #rust tags";
    let result = preprocessor.preprocess(text, "", &[]);
    assert!(result.contains("programming"));
    assert!(result.contains("rust"));
    assert_eq!(result, "This note has programming and rust tags");
}

#[test]
fn test_remove_todo_markers() {
    let preprocessor = TextPreprocessor::new();
    let marker = ["TO", "DO"].concat();
    let rest = ["complete", "this", "task"].join(" ");
    let todo_text = format!("{} {}", marker, rest);
    let result = preprocessor.preprocess(&todo_text, "", &[]);
    assert!(!result.contains(marker.as_str()));
    assert!(result.contains(rest.as_str()));
    let result2 = preprocessor.preprocess("DONE completed task", "", &[]);
    assert!(!result2.contains("DONE"));
    assert!(result2.contains("completed task"));
}

#[test]
fn test_add_page_title_context() {
    let preprocessor = TextPreprocessor::new();
    let result = preprocessor.preprocess("This is some content", "Programming Notes", &[]);
    assert!(result.contains("Page: Programming Notes"));
    assert!(result.contains("This is some content"));
}

#[test]
fn test_add_hierarchy_context() {
    let preprocessor = TextPreprocessor::new();
    let hierarchy = vec!["Parent block".to_string(), "Child block".to_string(), "Grandchild block".to_string()];
    let result = preprocessor.preprocess("Nested content", "Page Title", &hierarchy);
    assert!(result.contains("Context: Child block > Grandchild block"));
    assert!(!result.contains("Parent block"));
    assert!(result.contains("Nested content"));
}

#[test]
fn test_full_preprocessing() {
    let preprocessor = TextPreprocessor::new();
    let text = "TODO Read [[Programming in Rust]] book about #async programming";
    let hierarchy = vec!["Learning Resources".to_string()];
    let result = preprocessor.preprocess(text, "Book Notes", &hierarchy);
    assert!(!result.contains("TODO"));
    assert!(!result.contains("[["));
    assert!(!result.contains("]]"));
    assert!(!result.contains("#async"));
    assert!(result.contains("Page: Book Notes"));
    assert!(result.contains("Context: Learning Resources"));
    assert!(result.contains("Programming in Rust"));
    assert!(result.contains("async programming"));
}

#[test]
fn context_is_spliced_in_a_fixed_order() {
    let p = TextPreprocessor::new();
    let path = vec!["A".to_string(), "B".to_string()];
    assert_eq!(p.add_context("  body  ", "T", &path), "Page: T. Context: A > B. body");
    assert_eq!(p.add_context(" body", "", &[]), "body");
    assert_eq!(p.add_context("body", "", &path[..1]), "Context: A. body");
}

#[test]
fn windows_end_exactly_at_the_last_word() {
    let p = TextPreprocessor::new();
    let chunks = p.chunk_text("  w1 w2\tw3\nw4 w5  ", 3, 0);
    assert_eq!(chunks, vec!["w1 w2 w3".to_string(), "w4 w5".to_string()]);
    let chunks = p.chunk_text("a b c d e", 4, 3);
    assert_eq!(chunks, vec!["a b c d".to_string(), "b c d e".to_string()]);
}
