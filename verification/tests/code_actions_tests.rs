use makefile_lsp::code_actions::{get_code_actions, CodeAction, CodeActionKind};
use makefile_lsp::makefile::Makefile;
use makefile_lsp::position::{Position, Range};
use makefile_lsp::rename::TextEdit;

fn parse_and_actions(text: &str, pos: Position) -> Vec<CodeAction> {
    let parsed = Makefile::parse(text);
    let range = Range::new(pos, pos);
    get_code_actions(&parsed, text, range, "file:///test/Makefile")
}

#[test]
fn test_add_phony_action() {
    let text = "all: build\n\techo done\n";
    let actions = parse_and_actions(text, Position::new(0, 0));
    assert!(actions.iter().any(|a| a.title.contains(".PHONY")));
}

#[test]
fn test_no_phony_action_if_already_phony() {
    let text = ".PHONY: all\nall: build\n\techo done\n";
    let actions = parse_and_actions(text, Position::new(1, 0));
    assert!(!actions.iter().any(|a| a.title.contains(".PHONY")));
}

#[test]
fn test_no_phony_action_for_pattern_rule() {
    let text = "%.o: %.c\n\t$(CC) -c $<\n";
    let actions = parse_and_actions(text, Position::new(0, 0));
    assert!(!actions.iter().any(|a| a.title.contains(".PHONY")));
}

#[test]
fn test_define_variable_action() {
    let text = "CFLAGS = $(UNDEFINED)\n";
    // Position on 'U' in UNDEFINED, col 11
    let actions = parse_and_actions(text, Position::new(0, 11));
    assert!(actions.iter().any(|a| a.title.contains("Define variable")));
}

#[test]
fn test_no_define_action_for_defined_variable() {
    let text = "CC = gcc\nCFLAGS = $(CC)\n";
    // Position on 'C' in $(CC), col 11
    let actions = parse_and_actions(text, Position::new(1, 11));
    assert!(!actions.iter().any(|a| a.title.contains("Define variable")));
}

#[test]
fn test_replace_spaces_with_tab_action() {
    let text = "all:\n    echo done\n";
    // Position on the space-indented recipe line
    let actions = parse_and_actions(text, Position::new(1, 2));
    let tab_actions: Vec<_> = actions
        .iter()
        .filter(|a| a.title.contains("Replace spaces with tab"))
        .collect();
    assert_eq!(tab_actions.len(), 1);

    // Verify the edit replaces spaces with a tab
    let edit = tab_actions[0].edit.as_ref().unwrap();
    let edits = &edit.edits;
    assert_eq!(edits[0].new_text, "\t");
}

#[test]
fn test_no_replace_spaces_for_tab_indented_recipe() {
    let text = "all:\n\techo done\n";
    let actions = parse_and_actions(text, Position::new(1, 2));
    assert!(!actions
        .iter()
        .any(|a| a.title.contains("Replace spaces with tab")));
}

fn only_edit(action: &CodeAction) -> &TextEdit {
    let edits = &action.edit.as_ref().unwrap().edits;
    assert_eq!(edits.len(), 1);
    &edits[0]
}

/// Apply a single TextEdit to a source string.
fn apply_edit(source: &str, edit: &TextEdit) -> String {
    let to_byte = |p: Position| {
        let mut byte = 0usize;
        let mut line = 0u32;
        for ch in source.chars() {
            if line == p.line {
                break;
            }
            if ch == '\n' {
                line += 1;
            }
            byte += ch.len_utf8();
        }
        // byte now points at the start of the requested line (UTF-8 in this
        // codepath since we only test ASCII).
        byte + p.character as usize
    };
    let start = to_byte(edit.range.start);
    let end = to_byte(edit.range.end);
    let mut result = String::new();
    result.push_str(&source[..start]);
    result.push_str(&edit.new_text);
    result.push_str(&source[end..]);
    result
}

#[test]
fn test_remove_trailing_whitespace_action() {
    let text = "FOO = bar \n";
    let actions = parse_and_actions(text, Position::new(0, 8));
    let action = actions
        .iter()
        .find(|a| a.title == "Remove trailing whitespace")
        .expect("expected quickfix");
    let edit = only_edit(action);
    // The edit replaces the entire VARIABLE node's range with its trimmed text.
    assert_eq!(apply_edit(text, edit), "FOO = bar\n");
}

#[test]
fn test_remove_trailing_whitespace_multiple_spaces() {
    let text = "FOO = bar   \n";
    let actions = parse_and_actions(text, Position::new(0, 8));
    let action = actions
        .iter()
        .find(|a| a.title == "Remove trailing whitespace")
        .unwrap();
    let edit = only_edit(action);
    assert_eq!(apply_edit(text, edit), "FOO = bar\n");
}

#[test]
fn test_no_remove_trailing_whitespace_when_clean() {
    let text = "FOO = bar\n";
    let actions = parse_and_actions(text, Position::new(0, 8));
    assert!(!actions
        .iter()
        .any(|a| a.title == "Remove trailing whitespace"));
}

#[test]
fn test_no_remove_trailing_whitespace_for_empty_value() {
    let text = "FOO = \n";
    let actions = parse_and_actions(text, Position::new(0, 4));
    assert!(!actions
        .iter()
        .any(|a| a.title == "Remove trailing whitespace"));
}

#[test]
fn test_remove_trailing_whitespace_preserves_var_ref() {
    let text = "FOO = $(BAR)  \n";
    let actions = parse_and_actions(text, Position::new(0, 6));
    let action = actions
        .iter()
        .find(|a| a.title == "Remove trailing whitespace")
        .unwrap();
    let edit = only_edit(action);
    assert_eq!(apply_edit(text, edit), "FOO = $(BAR)\n");
}

#[test]
fn test_convert_to_simply_expanded_action() {
    let text = "FILES = $(shell ls)\n";
    let actions = parse_and_actions(text, Position::new(0, 0));
    let action = actions
        .iter()
        .find(|a| a.title == "Use := for shell expansion")
        .expect("expected quickfix");
    let edit = only_edit(action);
    assert_eq!(apply_edit(text, edit), "FILES := $(shell ls)\n");
}

#[test]
fn test_no_convert_when_already_simply_expanded() {
    let text = "FILES := $(shell ls)\n";
    let actions = parse_and_actions(text, Position::new(0, 0));
    assert!(!actions
        .iter()
        .any(|a| a.title == "Use := for shell expansion"));
}

#[test]
fn test_no_convert_when_no_shell() {
    let text = "FILES = file1 file2\n";
    let actions = parse_and_actions(text, Position::new(0, 0));
    assert!(!actions
        .iter()
        .any(|a| a.title == "Use := for shell expansion"));
}

#[test]
fn test_convert_with_shell_nested() {
    let text = "FILES = $(strip $(shell ls))\n";
    let actions = parse_and_actions(text, Position::new(0, 0));
    let action = actions
        .iter()
        .find(|a| a.title == "Use := for shell expansion")
        .unwrap();
    let edit = only_edit(action);
    assert_eq!(apply_edit(text, edit), "FILES := $(strip $(shell ls))\n");
}

#[test]
fn phony_action_edit_and_title() {
    let text = "all: build\n\techo done\n";
    let actions = parse_and_actions(text, Position::new(0, 1));
    let action = actions.iter().find(|a| a.title.contains(".PHONY")).unwrap();
    assert_eq!(action.title, "Add 'all' to .PHONY");
    assert_eq!(action.kind, Some(CodeActionKind::QuickFix));
    let edit = only_edit(action);
    assert_eq!(edit.new_text, ".PHONY: all\n");
    assert_eq!(edit.range, Range::new(Position::new(0, 0), Position::new(0, 0)));
    assert_eq!(action.edit.as_ref().unwrap().uri, "file:///test/Makefile");
}

#[test]
fn phony_action_inserts_after_last_phony_rule() {
    let text = ".PHONY: clean\nclean:\n\trm x\nall: build\n\techo done\n";
    let actions = parse_and_actions(text, Position::new(3, 0));
    let action = actions.iter().find(|a| a.title.contains(".PHONY")).unwrap();
    let edit = only_edit(action);
    assert_eq!(edit.range.start, Position::new(1, 0));
}

#[test]
fn define_variable_edit() {
    let text = "CFLAGS = $(UNDEFINED)\n";
    let actions = parse_and_actions(text, Position::new(0, 11));
    let action = actions.iter().find(|a| a.title.contains("Define variable")).unwrap();
    assert_eq!(action.title, "Define variable 'UNDEFINED'");
    assert_eq!(only_edit(action).new_text, "UNDEFINED =\n");
}

#[test]
fn no_actions_past_end_of_text() {
    let text = "all:\n";
    assert!(parse_and_actions(text, Position::new(7, 0)).is_empty());
}
