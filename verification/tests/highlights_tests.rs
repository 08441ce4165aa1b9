use makefile_lsp::highlights::{get_highlights, DocumentHighlight, DocumentHighlightKind};
use makefile_lsp::makefile::Makefile;
use makefile_lsp::position::Position;

fn get_hl(text: &str, pos: Position) -> Vec<DocumentHighlight> {
    let parsed = Makefile::parse(text);
    get_highlights(&parsed.makefile, text, pos, "file:///test/Makefile")
}

#[test]
fn test_highlight_variable() {
    let text = "CC = gcc\nall:\n\t$(CC) main.c\n";
    let highlights = get_hl(text, Position::new(0, 0));
    assert_eq!(highlights.len(), 2);
    assert_eq!(highlights[0].kind, Some(DocumentHighlightKind::Write));
    assert_eq!(highlights[1].kind, Some(DocumentHighlightKind::Read));
}

#[test]
fn test_highlight_target() {
    let text = "all: build\n\nbuild:\n\techo ok\n";
    let highlights = get_hl(text, Position::new(0, 5));
    assert_eq!(highlights.len(), 2);
}

#[test]
fn test_highlight_nothing() {
    let text = "all:\n\techo hello\n";
    let highlights = get_hl(text, Position::new(1, 2));
    assert!(highlights.is_empty());
}

#[test]
fn highlight_ranges_follow_references() {
    let text = "CC = gcc\nall:\n\t$(CC) main.c\n";
    let highlights = get_hl(text, Position::new(2, 3));
    assert_eq!(highlights[0].range.start, Position::new(0, 0));
    assert_eq!(highlights[1].range.start, Position::new(2, 3));
}
