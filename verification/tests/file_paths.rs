use prv_core::cass::models::Message;
use prv_core::evidence::{assistant_code_lines, code_lines_in, diff_line, mentioned_files};
use prv_core::file_paths::{extract_file_paths, is_likely_path, paths_among, runs};
use prv_core::text::lines;

fn message(role: &str, content: &str) -> Message {
    Message {
        id: 1,
        conversation_id: 1,
        role: role.to_string(),
        content: content.to_string(),
        created_at: None,
    }
}

fn strings(all: &[&str]) -> Vec<String> {
    all.iter().map(|s| s.to_string()).collect()
}

#[test]
fn a_path_between_backticks_is_a_mention() {
    assert_eq!(extract_file_paths("Edit `src/main.rs` now"), strings(&["src/main.rs"]));
}

#[test]
fn known_extensions_need_no_slash() {
    assert_eq!(
        extract_file_paths("see README.md and Cargo.toml"),
        strings(&["README.md", "Cargo.toml"])
    );
    for name in ["a.rs", "a.toml", "a.json", "a.md", "a.ts", "a.js", "a.py"] {
        assert_eq!(extract_file_paths(name), strings(&[name]));
    }
}

#[test]
fn other_words_with_a_dot_are_no_mentions() {
    assert!(extract_file_paths("version 1.2 of e.g. that").is_empty());
    assert!(extract_file_paths("notes.txt").is_empty());
    assert!(extract_file_paths("").is_empty());
    assert_eq!(extract_file_paths("docs/notes.txt"), strings(&["docs/notes.txt"]));
}

#[test]
fn a_path_is_mentioned_once() {
    assert_eq!(extract_file_paths("`a.rs` and `a.rs` and 'b.rs'"), strings(&["a.rs", "b.rs"]));
}

#[test]
fn quotes_and_brackets_delimit_a_mention() {
    assert_eq!(extract_file_paths("(see src/lib.rs)"), strings(&["src/lib.rs"]));
    assert_eq!(extract_file_paths("\"src/lib.rs\""), strings(&["src/lib.rs"]));
    assert_eq!(extract_file_paths("'src/lib.rs'"), strings(&["src/lib.rs"]));
    assert_eq!(extract_file_paths("x\tsrc/lib.rs\ny"), strings(&["src/lib.rs"]));
    assert_eq!(extract_file_paths("x\u{a0}src/lib.rs\u{3000}y"), strings(&["src/lib.rs"]));
}

#[test]
fn other_characters_delimit_nothing() {
    assert!(extract_file_paths("src/lib.rs, then").is_empty());
    assert!(extract_file_paths("src/lib.rs: fix").is_empty());
    assert!(extract_file_paths("in src/lib.rs.").is_empty());
    assert!(extract_file_paths("[src/lib.rs]").is_empty());
    assert!(extract_file_paths("src/caf\u{e9}.rs").is_empty());
}

#[test]
fn one_delimiter_serves_the_mentions_on_both_sides() {
    assert_eq!(extract_file_paths("a.rs b.rs"), strings(&["a.rs", "b.rs"]));
    assert_eq!(extract_file_paths("a.rs  b.rs"), strings(&["a.rs", "b.rs"]));
    assert_eq!(extract_file_paths("`a.rs``b.rs`"), strings(&["a.rs", "b.rs"]));
    assert_eq!(extract_file_paths("a.rs\nb.rs\nc.py"), strings(&["a.rs", "b.rs", "c.py"]));
}

#[test]
fn a_text_is_cut_into_runs_at_its_delimiters() {
    assert_eq!(runs("see `a.rs` (and 'b')"), strings(&["see", "a.rs", "and", "b"]));
    assert_eq!(runs("  x  "), strings(&["x"]));
    assert_eq!(runs("x"), strings(&["x"]));
    assert_eq!(runs("a:b,c"), strings(&["a:b,c"]));
    assert!(runs("").is_empty());
    assert!(runs(" \t\n`\"'()").is_empty());
}

#[test]
fn likely_paths() {
    assert!(is_likely_path("a/b"));
    assert!(is_likely_path("/"));
    assert!(is_likely_path("main.rs"));
    assert!(is_likely_path(".rs"));
    assert!(!is_likely_path("rs"));
    assert!(!is_likely_path("main.rsx"));
    assert!(!is_likely_path("main.RS"));
    assert!(!is_likely_path(""));
}

#[test]
fn paths_among_given_runs() {
    let all = strings(&["x.py", "plain.txt", "dir/plain.txt", "y.rs", "x.py", "z.rs"]);
    let formed = vec![true, true, true, false, true];
    assert_eq!(paths_among(&all, &formed), strings(&["x.py", "dir/plain.txt"]));
    assert!(paths_among(&all, &Vec::new()).is_empty());
    assert!(paths_among(&Vec::new(), &formed).is_empty());
}

#[test]
fn mentions_are_collapsed_across_messages() {
    let messages = vec![
        message("user", "fix `a.rs` please"),
        message("assistant", "done: `b.rs` and `a.rs`"),
        message("user", "nothing here"),
    ];
    assert_eq!(mentioned_files(&messages), strings(&["a.rs", "b.rs"]));
    assert!(mentioned_files(&Vec::new()).is_empty());
}

#[test]
fn only_the_assistant_contributes_code() {
    let messages = vec![
        message("user", "```\nmine();\n```"),
        message("assistant", "```rust\nlet x = 1;\nlet y = 2;\n```\nand\n\n    indented();\n"),
        message("system", "```\nnot this\n```"),
        message("assistant", "no code"),
        message("assistant", "@@ -1 +1,2 @@\n-old\n+new\n"),
    ];
    assert_eq!(
        assistant_code_lines(&messages),
        strings(&["let x = 1;", "let y = 2;", "indented();", "new"])
    );
}

#[test]
fn the_lines_of_the_blocks_of_a_text() {
    assert_eq!(code_lines_in("```\na\n\nb\n```"), strings(&["a", "", "b"]));
    assert!(code_lines_in("prose").is_empty());
}

#[test]
fn lines_are_cut_at_line_feeds() {
    assert_eq!(lines("a\nb"), strings(&["a", "b"]));
    assert_eq!(lines("a\nb\n"), strings(&["a", "b"]));
    assert_eq!(lines("a\r\nb\r\n"), strings(&["a", "b"]));
    assert_eq!(lines("a\n\nb"), strings(&["a", "", "b"]));
    assert_eq!(lines("\n"), strings(&[""]));
    assert_eq!(lines("\n\n"), strings(&["", ""]));
    assert_eq!(lines("a\r"), strings(&["a\r"]));
    assert_eq!(lines("a\rb\n"), strings(&["a\rb"]));
    assert_eq!(lines("\r\n"), strings(&[""]));
    assert!(lines("").is_empty());
    for text in ["", "x", "x\n", "\n\nx", "a\r\n\r\nb\r", "\u{e9}\n\u{4e2d}\u{6587}\n"] {
        let expected: Vec<String> = text.lines().map(String::from).collect();
        assert_eq!(lines(text), expected);
    }
}

#[test]
fn diff_lines_are_the_added_and_removed_lines_without_trailing_space() {
    assert_eq!(diff_line('+', "let x = 1;  \n"), Some("let x = 1;".to_string()));
    assert_eq!(diff_line('-', "gone\t"), Some("gone".to_string()));
    assert_eq!(diff_line('+', "  kept indent"), Some("  kept indent".to_string()));
    assert_eq!(diff_line('+', " \n"), Some(String::new()));
    assert_eq!(diff_line('+', ""), Some(String::new()));
    assert_eq!(diff_line(' ', "context"), None);
    assert_eq!(diff_line('F', "header"), None);
}

#[test]
fn white_space_quotes_backticks_and_round_brackets_delimit() {
    for c in [' ', '\t', '\n', '\r', '\u{b}', '\u{c}', '\u{a0}', '\u{2003}', '`', '"', '\'', '(', ')'] {
        assert!(prv_core::file_paths::delimits(c));
    }
    for c in [':', ',', '.', '/', '[', ']', '{', '<', 'a', '0', '_', '-', '\u{e9}', '\u{0}', '\u{1f}'] {
        assert!(!prv_core::file_paths::delimits(c));
    }
}
