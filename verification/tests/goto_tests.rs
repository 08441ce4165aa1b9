use makefile_lsp::goto::{goto_definition, is_in_prerequisites, variable_at_offset, word_at_offset};
use makefile_lsp::makefile::Makefile;
use makefile_lsp::position::Position;

const TEST_URI: &str = "file:///test/Makefile";

fn assert_goto_line(text: &str, pos: Position, expected_line: u32) {
    let parsed = Makefile::parse(text);
    let result = goto_definition(&parsed.makefile, text, pos, TEST_URI);
    match result {
        Some(loc) => {
            assert_eq!(loc.range.start.line, expected_line);
            assert_eq!(loc.uri, TEST_URI);
        }
        None => panic!("Expected a definition, got None"),
    }
}

fn assert_goto_none(text: &str, pos: Position) {
    let parsed = Makefile::parse(text);
    let result = goto_definition(&parsed.makefile, text, pos, TEST_URI);
    assert!(result.is_none());
}

#[test]
fn test_goto_prerequisite_found() {
    assert_goto_line("all: build\n\nbuild:\n\techo ok\n", Position::new(0, 5), 2);
}

#[test]
fn test_goto_prerequisite_not_found() {
    assert_goto_none("all: build\n\nbuilder:\n\techo ok\n", Position::new(0, 5));
}

#[test]
fn test_goto_variable_in_recipe() {
    // Line 2: "\t$(CC) main.c", CC at col 3
    assert_goto_line("CC = gcc\nall:\n\t$(CC) main.c\n", Position::new(2, 3), 0);
}

#[test]
fn test_goto_variable_in_prerequisites() {
    // Line 1: "all: $(OBJS)", OBJS at col 7
    assert_goto_line("OBJS = main.o\nall: $(OBJS)\n", Position::new(1, 7), 0);
}

#[test]
fn test_goto_no_definition() {
    assert_goto_none("all:\n\techo hello\n", Position::new(1, 2));
}

#[test]
fn test_goto_undefined_variable() {
    assert_goto_none("all:\n\t$(UNDEFINED) foo\n", Position::new(1, 3));
}

#[test]
fn goto_definition_range_covers_whole_rule() {
    let text = "all: build\n\nbuild:\n\techo ok\n";
    let parsed = Makefile::parse(text);
    let loc = goto_definition(&parsed.makefile, text, Position::new(0, 5), TEST_URI).unwrap();
    assert_eq!(loc.range.start, Position::new(2, 0));
    assert_eq!(loc.range.end, Position::new(4, 0));
}

#[test]
fn goto_definition_position_past_end_is_none() {
    assert_goto_none("all: build\n", Position::new(5, 0));
}

#[test]
fn test_variable_at_offset_parens() {
    assert_eq!(variable_at_offset("$(FOO)", 2), Some("FOO"));
    assert_eq!(variable_at_offset("$(FOO)", 4), Some("FOO"));
}

#[test]
fn test_variable_at_offset_braces() {
    assert_eq!(variable_at_offset("${BAR}", 2), Some("BAR"));
}

#[test]
fn test_variable_at_offset_none() {
    assert_eq!(variable_at_offset("plain text", 3), None);
}

#[test]
fn test_word_at_offset() {
    assert_eq!(word_at_offset("hello world", 0), Some("hello"));
    assert_eq!(word_at_offset("hello world", 3), Some("hello"));
    assert_eq!(word_at_offset("hello world", 5), None); // space
    assert_eq!(word_at_offset("hello world", 6), Some("world"));
}

#[test]
fn test_is_in_prerequisites() {
    let text = "all: build test\n\techo ok\n";
    assert!(!is_in_prerequisites(text, 0)); // 'a' in target
    assert!(is_in_prerequisites(text, 5)); // 'b' in prerequisites
    assert!(!is_in_prerequisites(text, 17)); // 'e' in recipe
}

#[test]
fn variable_at_offset_past_closer_is_none() {
    assert_eq!(variable_at_offset("$(FOO) x", 7), None);
}

#[test]
fn variable_at_offset_unclosed_is_none() {
    assert_eq!(variable_at_offset("$(FOO", 3), None);
}

#[test]
fn word_at_offset_end_of_text() {
    assert_eq!(word_at_offset("abc", 3), Some("abc"));
    assert_eq!(word_at_offset("abc", 4), None);
    assert_eq!(word_at_offset("", 0), None);
}

#[test]
fn word_at_offset_keeps_dots_and_dashes() {
    assert_eq!(word_at_offset("all: foo-bar.o baz", 7), Some("foo-bar.o"));
}

#[test]
fn is_in_prerequisites_second_line() {
    let text = "x = 1\nall: dep\n";
    assert!(!is_in_prerequisites(text, 3));
    assert!(is_in_prerequisites(text, 11));
}

#[test]
fn variable_found_lies_between_its_delimiters() {
    let text = "X = $(FOO)\nY = ${BAR} $(a)b\n";
    for offset in 0..=text.len() {
        if let Some(v) = variable_at_offset(text, offset) {
            let s = v.as_ptr() as usize - text.as_ptr() as usize;
            assert!(2 <= s && s <= offset && offset <= s + v.len());
            assert!(&text[s - 2..s] == "$(" || &text[s - 2..s] == "${");
            assert!(text.as_bytes()[s + v.len()] == b')' || text.as_bytes()[s + v.len()] == b'}');
            assert!(!v.contains(')') && !v.contains('}'));
            assert!(!text[s..offset].contains('\n'));
        }
    }
    assert_eq!(variable_at_offset(text, 7), Some("FOO"));
}
