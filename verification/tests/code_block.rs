use prv_core::code_block::{blocks_from_matches, extract_code_blocks, CodeBlock};
use prv_core::search::PatternMatch;

// =========================================
// CodeBlock struct tests
// =========================================

#[test]
fn test_code_block_new() {
    let block = CodeBlock::new("fn main() {}".to_string(), Some("rust".to_string()), 10);
    assert_eq!(block.content, "fn main() {}");
    assert_eq!(block.language, Some("rust".to_string()));
    assert_eq!(block.source_line, 10);
}

#[test]
fn test_code_block_no_language() {
    let block = CodeBlock::new("code".to_string(), None, 1);
    assert!(block.language.is_none());
}

#[test]
fn test_code_block_equality() {
    let a = CodeBlock::new("x".to_string(), None, 1);
    let b = CodeBlock::new("x".to_string(), None, 1);
    assert_eq!(a, b);
}

// =========================================
// Triple backtick tests
// =========================================

#[test]
fn test_triple_backtick_basic() {
    let text = "```\nfn main() {}\n```";
    let blocks = extract_code_blocks(text);
    assert_eq!(blocks.len(), 1);
    assert_eq!(blocks[0].content, "fn main() {}\n");
    assert!(blocks[0].language.is_none());
}

#[test]
fn test_triple_backtick_with_language() {
    let text = "```rust\nlet x = 1;\n```";
    let blocks = extract_code_blocks(text);
    assert_eq!(blocks[0].language, Some("rust".to_string()));
    assert_eq!(blocks[0].content, "let x = 1;\n");
}

#[test]
fn test_multiple_blocks() {
    let text = "```python\nprint(1)\n```\ntext\n```js\nconsole.log(1)\n```";
    let blocks = extract_code_blocks(text);
    assert_eq!(blocks.len(), 2);
    assert_eq!(blocks[0].language, Some("python".to_string()));
    assert_eq!(blocks[1].language, Some("js".to_string()));
}

#[test]
fn test_nested_blocks() {
    // When someone pastes markdown containing code blocks inside a code block
    let text = "````\n```rust\nlet x = 1;\n```\n````";
    let blocks = extract_code_blocks(text);
    assert!(blocks.len() >= 1);
}

// =========================================
// Edge cases
// =========================================

#[test]
fn test_empty_input() {
    let blocks = extract_code_blocks("");
    assert!(blocks.is_empty());
}

#[test]
fn test_no_code_blocks() {
    let blocks = extract_code_blocks("just plain text");
    assert!(blocks.is_empty());
}

#[test]
fn test_malformed_unclosed() {
    let text = "```rust\nlet x = 1;";
    let blocks = extract_code_blocks(text);
    assert!(blocks.is_empty());
}

// =========================================
// 4-space indented code blocks
// =========================================

#[test]
fn test_4space_indent() {
    let text = "Some text:\n\n    fn main() {\n        println!(\"hello\");\n    }\n\nMore text.";
    let blocks = extract_code_blocks(text);
    assert!(blocks.iter().any(|b| b.content.contains("fn main()")));
}

#[test]
fn test_4space_indent_multiline() {
    let text = "    line1\n    line2\n    line3";
    let blocks = extract_code_blocks(text);
    assert!(!blocks.is_empty());
    let block = blocks.iter().find(|b| b.language.is_none()).unwrap();
    assert!(block.content.contains("line1"));
    assert!(block.content.contains("line2"));
    assert!(block.content.contains("line3"));
}

// =========================================
// Diff format tests
// =========================================

#[test]
fn test_diff_format() {
    let text = "@@ -1,3 +1,4 @@\n context line\n+added line 1\n+added line 2\n-removed line\n";
    let blocks = extract_code_blocks(text);
    let diff_block = blocks.iter().find(|b| b.language == Some("diff".to_string()));
    assert!(diff_block.is_some());
    let content = &diff_block.unwrap().content;
    assert!(content.contains("added line 1"));
    assert!(content.contains("added line 2"));
    assert!(!content.contains("removed line"));
}

#[test]
fn test_diff_format_empty_additions() {
    let text = "@@ -1,3 +1,2 @@\n context line\n-removed line\n";
    let blocks = extract_code_blocks(text);
    let diff_blocks: Vec<_> =
        blocks.iter().filter(|b| b.language == Some("diff".to_string())).collect();
    assert!(diff_blocks.is_empty());
}

// =========================================
// Source line tracking
// =========================================

#[test]
fn test_source_line_tracking() {
    let text = "line 1\nline 2\n```rust\ncode\n```";
    let blocks = extract_code_blocks(text);
    assert_eq!(blocks.len(), 1);
    assert_eq!(blocks[0].source_line, 3);
}

#[test]
fn test_multiple_blocks_line_tracking() {
    let text = "```\nfirst\n```\n\n```\nsecond\n```";
    let blocks = extract_code_blocks(text);
    assert_eq!(blocks.len(), 2);
    assert_eq!(blocks[0].source_line, 1);
    assert_eq!(blocks[1].source_line, 5);
}

// =========================================
// Grammar and order
// =========================================

#[test]
fn three_kinds_in_textual_order() {
    let text = "```rust\nlet a = 1;\n```\nprose\n    indented one\n    indented two\nprose\n@@ -1,2 +1,3 @@\n+added one\n-removed\n+added two\n";
    let blocks = extract_code_blocks(text);
    assert_eq!(blocks.len(), 3);
    assert_eq!(blocks[0], CodeBlock::new("let a = 1;\n".to_string(), Some("rust".to_string()), 1));
    assert_eq!(blocks[1], CodeBlock::new("indented one\nindented two\n".to_string(), None, 5));
    assert_eq!(
        blocks[2],
        CodeBlock::new("added one\nadded two\n".to_string(), Some("diff".to_string()), 8)
    );
}

#[test]
fn blocks_come_in_order_of_position_not_of_kind() {
    let text = "    first\nprose\n```\nsecond\n```\n";
    let blocks = extract_code_blocks(text);
    assert_eq!(blocks.len(), 2);
    assert_eq!(blocks[0], CodeBlock::new("first\n".to_string(), None, 1));
    assert_eq!(blocks[1], CodeBlock::new("second\n".to_string(), None, 3));
}

#[test]
fn indented_block_keeps_inner_blank_lines_and_drops_trailing_ones() {
    let text = "    a\n\n    b\n\n\nprose";
    let blocks = extract_code_blocks(text);
    assert_eq!(blocks, vec![CodeBlock::new("a\n\nb\n".to_string(), None, 1)]);
}

#[test]
fn indented_block_keeps_deeper_indentation() {
    let text = "x\n    if a {\n        b();\n    }\n";
    let blocks = extract_code_blocks(text);
    assert_eq!(blocks, vec![CodeBlock::new("if a {\n    b();\n}\n".to_string(), None, 2)]);
}

#[test]
fn a_blank_indented_line_opens_no_block() {
    let blocks = extract_code_blocks("        \n\n");
    assert!(blocks.is_empty());
}

#[test]
fn carriage_returns_end_lines_too() {
    let text = "    a\r\n    b\r\nprose\r\n";
    let blocks = extract_code_blocks(text);
    assert_eq!(blocks, vec![CodeBlock::new("a\nb\n".to_string(), None, 1)]);
}

#[test]
fn line_numbers_count_bytes_of_wide_characters() {
    let text = "h\u{e9}llo w\u{f6}rld \u{1F600}\n\u{4e2d}\u{6587}\n```\nx\n```\n    \u{e9}t\u{e9}\n";
    let blocks = extract_code_blocks(text);
    assert_eq!(blocks.len(), 2);
    assert_eq!(blocks[0], CodeBlock::new("x\n".to_string(), None, 3));
    assert_eq!(blocks[1], CodeBlock::new("\u{e9}t\u{e9}\n".to_string(), None, 6));
}

#[test]
fn every_block_starts_on_a_line_of_the_text() {
    let text = "a\n```\nb\n```\n    c\n@@ -1 +1 @@\n+d\n";
    let lines = text.lines().count();
    for block in extract_code_blocks(text) {
        assert!(block.source_line >= 1 && block.source_line <= lines);
    }
}

#[test]
fn extraction_is_repeatable() {
    let text = "```\nx\n```\n    y\n@@ -1 +1 @@\n+z\n";
    assert_eq!(extract_code_blocks(text), extract_code_blocks(text));
}

#[test]
fn blocks_from_given_matches() {
    let text = "one\ntwo\nthree\n";
    let fences = vec![PatternMatch {
        start: 4,
        groups: vec![Some("py".to_string()), Some("body\n".to_string())],
    }];
    let hunks = vec![PatternMatch { start: 8, groups: vec![Some("+x\n y\n+z".to_string())] }];
    let blocks = blocks_from_matches(text, &fences, &hunks);
    assert_eq!(
        blocks,
        vec![
            CodeBlock::new("body\n".to_string(), Some("py".to_string()), 2),
            CodeBlock::new("x\nz\n".to_string(), Some("diff".to_string()), 3),
        ]
    );
}

#[test]
fn a_fence_without_tag_or_content_group_gives_an_empty_block() {
    let fences = vec![PatternMatch { start: 0, groups: vec![Some(String::new()), None] }];
    let blocks = blocks_from_matches("abc", &fences, &Vec::new());
    assert_eq!(blocks, vec![CodeBlock::new(String::new(), None, 1)]);
}

#[test]
fn a_match_that_starts_outside_the_text_gives_no_block() {
    let at_the_end = vec![PatternMatch { start: 4, groups: vec![None, Some("x".to_string())] }];
    assert!(blocks_from_matches("a\nb\n", &at_the_end, &Vec::new()).is_empty());
    assert!(blocks_from_matches("a\nb\n", &Vec::new(), &vec![PatternMatch { start: 9, groups: vec![Some("+x".to_string())] }]).is_empty());
    let on_the_last_character = vec![PatternMatch { start: 3, groups: vec![None, Some("x".to_string())] }];
    assert_eq!(blocks_from_matches("a\nb\n", &on_the_last_character, &Vec::new())[0].source_line, 2);
    assert!(blocks_from_matches("", &vec![PatternMatch { start: 0, groups: vec![] }], &Vec::new()).is_empty());
}

#[test]
fn no_block_lies_beyond_the_last_line() {
    for text in ["", "\n", "    a\n", "```\nx\n```\n", "@@ -1 +1 @@\n+a\n", "    a", "x\n\n    y\n\n"] {
        let lines = text.lines().count();
        for block in extract_code_blocks(text) {
            assert!(1 <= block.source_line && block.source_line <= lines);
        }
    }
}

#[test]
fn a_fence_closes_only_at_the_start_of_a_line() {
    let blocks = extract_code_blocks("```\nlet s = \"```\";\nmore\n```\n");
    assert_eq!(blocks, vec![CodeBlock::new("let s = \"```\";\nmore\n".to_string(), None, 1)]);
    assert!(extract_code_blocks("```\ncode```").is_empty());
    assert_eq!(extract_code_blocks("```\n```"), vec![CodeBlock::new(String::new(), None, 1)]);
}

#[test]
fn line_numbers_never_fall() {
    let text = "@@ -1 +1 @@\n+a\n\n    b\n```\nc\n```\n    d\n@@ -2 +2 @@\n+e\n```x\nf\n```";
    let blocks = extract_code_blocks(text);
    let lines: Vec<usize> = blocks.iter().map(|b| b.source_line).collect();
    assert_eq!(lines, vec![1, 4, 5, 8, 9, 11]);
    let contents: Vec<&str> = blocks.iter().map(|b| b.content.as_str()).collect();
    assert_eq!(contents, vec!["a\n", "b\n", "c\n", "d\n", "e\n", "f\n"]);
}
