use makefile_lsp::makefile::Makefile;
use makefile_lsp::position::Position;
use makefile_lsp::rename::{
    find_var_name_start_in_ref, find_word_start, prepare_rename, rename, TextEdit,
};

fn get_edits(text: &str, pos: Position, new_name: &str) -> Vec<TextEdit> {
    let parsed = Makefile::parse(text);
    let result = rename(&parsed.makefile, text, pos, new_name, "file:///test/Makefile");
    result.map(|ws| ws.edits).unwrap_or_default()
}

#[test]
fn test_rename_variable() {
    let text = "CC = gcc\nall:\n\t$(CC) main.c\n";
    let edits = get_edits(text, Position::new(0, 0), "GCC");
    assert_eq!(edits.len(), 2);
    assert_eq!(edits[0].new_text, "GCC");
    assert_eq!(edits[0].range.start.line, 0);
    assert_eq!(edits[1].new_text, "GCC");
    assert_eq!(edits[1].range.start.line, 2);
}

#[test]
fn test_rename_variable_from_reference() {
    let text = "CC = gcc\nall:\n\t$(CC) main.c\n";
    let edits = get_edits(text, Position::new(2, 3), "GCC");
    assert_eq!(edits.len(), 2);
}

#[test]
fn test_rename_target() {
    let text = "all: build\n\nbuild:\n\techo ok\n";
    let edits = get_edits(text, Position::new(2, 0), "compile");
    assert_eq!(edits.len(), 2);
    assert!(edits.iter().all(|e| e.new_text == "compile"));
}

#[test]
fn test_rename_target_from_prereq() {
    let text = "all: build\n\nbuild:\n\techo ok\n";
    let edits = get_edits(text, Position::new(0, 5), "compile");
    assert_eq!(edits.len(), 2);
}

#[test]
fn test_prepare_rename_variable() {
    let text = "CC = gcc\nall:\n\t$(CC) main.c\n";
    let parsed = Makefile::parse(text);
    let result = prepare_rename(&parsed.makefile, text, Position::new(0, 0));
    assert!(result.is_some());
    assert_eq!(result.unwrap().placeholder, "CC");
}

#[test]
fn test_prepare_rename_nothing() {
    let text = "all:\n\techo hello\n";
    let parsed = Makefile::parse(text);
    let result = prepare_rename(&parsed.makefile, text, Position::new(1, 2));
    assert!(result.is_none());
}

#[test]
fn test_rename_variable_multiple_usages() {
    let text = "CC = gcc\nall:\n\t$(CC) main.c\nclean:\n\t$(CC) --version\n";
    let edits = get_edits(text, Position::new(0, 0), "COMPILER");
    assert_eq!(edits.len(), 3);
}

#[test]
fn prepare_rename_range_of_reference() {
    let text = "CC = gcc\nall:\n\t$(CC) main.c\n";
    let parsed = Makefile::parse(text);
    let result = prepare_rename(&parsed.makefile, text, Position::new(2, 4)).unwrap();
    assert_eq!(result.range.start, Position::new(2, 3));
    assert_eq!(result.range.end, Position::new(2, 5));
}

#[test]
fn rename_undefined_variable_is_refused() {
    let text = "all:\n\t$(CC) main.c\n";
    assert!(get_edits(text, Position::new(1, 3), "X").is_empty());
}

#[test]
fn rename_edits_are_sorted_and_unique() {
    let text = "${CC} $(CC)\nCC = 1\n";
    let edits = get_edits(text, Position::new(1, 0), "D");
    let starts: Vec<(u32, u32)> = edits.iter().map(|e| (e.range.start.line, e.range.start.character)).collect();
    assert_eq!(starts, vec![(0, 2), (0, 8), (1, 0)]);
}

#[test]
fn word_and_reference_starts() {
    assert_eq!(find_word_start("all: foo-bar", 9), 5);
    assert_eq!(find_word_start("all: foo", 4), 4);
    assert_eq!(find_var_name_start_in_ref("x $(FOO) y", 5), Some(4));
    assert_eq!(find_var_name_start_in_ref("x $(FOO) y", 9), None);
}
