use makefile_lsp::hover::get_hover;
use makefile_lsp::makefile::Makefile;
use makefile_lsp::position::Position;

fn hover_text(text: &str, pos: Position) -> Option<String> {
    let parsed = Makefile::parse(text);
    get_hover(&parsed.makefile, text, pos).map(|h| h.contents)
}

#[test]
fn test_hover_user_variable() {
    let text = "CC = gcc\nall:\n\t$(CC) main.c\n";
    let result = hover_text(text, Position::new(2, 3));
    assert!(result.is_some());
    let content = result.unwrap();
    assert!(content.contains("CC"));
    assert!(content.contains("gcc"));
}

#[test]
fn test_hover_automatic_variable() {
    let text = "all:\n\techo $(@D)\n";
    let result = hover_text(text, Position::new(1, 8));
    assert!(result.is_some());
    assert!(result.unwrap().contains("directory"));
}

#[test]
fn test_hover_special_target() {
    let text = "all: build\n.PHONY: all\n";
    let result = hover_text(text, Position::new(1, 0));
    assert!(result.is_some());
    assert!(result.unwrap().contains("do not represent files"));
}

#[test]
fn test_hover_prerequisite_target() {
    let text = "all: build\n\nbuild:\n\techo ok\n";
    let result = hover_text(text, Position::new(0, 5));
    assert!(result.is_some());
    let content = result.unwrap();
    assert!(content.contains("build"));
    assert!(content.contains("echo ok"));
}

#[test]
fn test_hover_nothing() {
    let text = "all:\n\techo hello\n";
    let result = hover_text(text, Position::new(0, 3));
    assert!(result.is_none());
}

#[test]
fn test_hover_undefined_variable() {
    let text = "all:\n\t$(UNDEFINED)\n";
    let result = hover_text(text, Position::new(1, 3));
    assert!(result.is_none());
}

#[test]
fn hover_user_variable_exact_text() {
    let text = "CC := gcc  \nall:\n\t$(CC) main.c\n";
    assert_eq!(
        hover_text(text, Position::new(2, 3)).as_deref(),
        Some("```makefile\nCC := gcc\n```")
    );
}

#[test]
fn hover_prerequisite_exact_text() {
    let text = "all: build\n\nbuild: a b\n\techo ok\n";
    assert_eq!(
        hover_text(text, Position::new(0, 6)).as_deref(),
        Some("**`build`**\n\nPrerequisites: `a b`\n\n```makefile\n\techo ok\n```")
    );
}

#[test]
fn test_hover_builtin_variable() {
    let text = "all:\n\t$(MAKE) -C subdir\n";
    let result = hover_text(text, Position::new(1, 3));
    assert!(result.is_some());
    let content = result.unwrap();
    assert!(content.contains("MAKE"));
    assert!(content.contains("make program"));
}

#[test]
fn test_hover_builtin_cc_variable() {
    let text = "all:\n\t$(CC) -o main main.c\n";
    let result = hover_text(text, Position::new(1, 3));
    assert!(result.is_some());
    let content = result.unwrap();
    assert!(content.contains("CC"));
    assert!(content.contains("C compiler"));
}
