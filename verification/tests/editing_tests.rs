use makefile_lsp::editing::{apply_content_changes, nth_line, on_type_formatting, ContentChange};
use makefile_lsp::position::{Position, Range};

#[test]
fn full_replacement_takes_new_text() {
    let changes = vec![ContentChange { range: None, text: "all:\n".to_string() }];
    assert_eq!(apply_content_changes("old text", &changes), "all:\n");
}

#[test]
fn ranged_change_replaces_range() {
    let changes = vec![ContentChange {
        range: Some(Range::new(Position::new(0, 5), Position::new(0, 10))),
        text: "test".to_string(),
    }];
    assert_eq!(apply_content_changes("all: build\n", &changes), "all: test\n");
}

#[test]
fn changes_apply_in_order() {
    let changes = vec![
        ContentChange { range: Some(Range::new(Position::new(0, 0), Position::new(0, 0))), text: "x".to_string() },
        ContentChange { range: Some(Range::new(Position::new(0, 1), Position::new(0, 2))), text: "Y".to_string() },
    ];
    assert_eq!(apply_content_changes("ab", &changes), "xYb");
}

#[test]
fn change_outside_text_is_ignored() {
    let changes = vec![ContentChange {
        range: Some(Range::new(Position::new(4, 0), Position::new(4, 1))),
        text: "z".to_string(),
    }];
    assert_eq!(apply_content_changes("ab\n", &changes), "ab\n");
}

#[test]
fn lines_split_like_str_lines() {
    let text = "a\r\nb\n\nc";
    assert_eq!(nth_line(text, 0), Some("a"));
    assert_eq!(nth_line(text, 1), Some("b"));
    assert_eq!(nth_line(text, 2), Some(""));
    assert_eq!(nth_line(text, 3), Some("c"));
    assert_eq!(nth_line(text, 4), None);
    assert_eq!(nth_line("x\n", 1), None);
    assert_eq!(nth_line("", 0), None);
    let all: Vec<&str> = text.lines().collect();
    for (i, l) in all.iter().enumerate() {
        assert_eq!(nth_line(text, i as u32), Some(*l));
    }
}

#[test]
fn tab_after_rule_header() {
    let text = "all: build\n\n";
    let edits = on_type_formatting(text, Position::new(1, 0), "\n").unwrap();
    assert_eq!(edits.len(), 1);
    assert_eq!(edits[0].new_text, "\t");
    assert_eq!(edits[0].range, Range::new(Position::new(1, 0), Position::new(1, 0)));
}

#[test]
fn no_tab_after_assignment_or_recipe() {
    assert!(on_type_formatting("X := y\n\n", Position::new(1, 0), "\n").is_none());
    assert!(on_type_formatting("all:\n\techo a:b\n\n", Position::new(2, 0), "\n").is_none());
    assert!(on_type_formatting("all: b\n", Position::new(0, 0), "\n").is_none());
    assert!(on_type_formatting("all: b\n\n", Position::new(1, 0), "x").is_none());
}
