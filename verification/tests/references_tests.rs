use makefile_lsp::goto::Location;
use makefile_lsp::makefile::Makefile;
use makefile_lsp::position::Position;
use makefile_lsp::references::find_references;

const TEST_URI: &str = "file:///test/Makefile";

fn refs(text: &str, pos: Position, include_declaration: bool) -> Vec<Location> {
    let parsed = Makefile::parse(text);
    find_references(&parsed.makefile, text, pos, TEST_URI, include_declaration)
}

#[test]
fn test_find_target_references_from_prereq() {
    let text = "all: build\n\nbuild:\n\techo ok\n";
    // Cursor on "build" in prerequisites (col 5)
    let refs = refs(text, Position::new(0, 5), true);
    assert_eq!(refs.len(), 2); // declaration + prerequisite reference
}

#[test]
fn test_find_target_references_from_definition() {
    let text = "all: build\n\nbuild:\n\techo ok\n";
    // Cursor on "build" in its definition (line 2, col 0)
    let refs = refs(text, Position::new(2, 0), true);
    assert_eq!(refs.len(), 2);
}

#[test]
fn test_find_target_references_no_declaration() {
    let text = "all: build\n\nbuild:\n\techo ok\n";
    let refs = refs(text, Position::new(0, 5), false);
    assert_eq!(refs.len(), 1); // only the prerequisite reference
}

#[test]
fn test_find_variable_references() {
    let text = "CC = gcc\nall:\n\t$(CC) main.c\n";
    // Cursor on CC in $(CC) (line 2, col 3)
    let refs = refs(text, Position::new(2, 3), true);
    assert_eq!(refs.len(), 2); // definition + usage
}

#[test]
fn test_find_variable_references_from_definition() {
    let text = "CC = gcc\nall:\n\t$(CC) main.c\n";
    // Cursor on CC in definition (line 0, col 0)
    let refs = refs(text, Position::new(0, 0), true);
    assert_eq!(refs.len(), 2);
}

#[test]
fn test_find_variable_multiple_usages() {
    let text = "CC = gcc\nall:\n\t$(CC) main.c\nclean:\n\t$(CC) --version\n";
    let refs = refs(text, Position::new(0, 0), true);
    assert_eq!(refs.len(), 3); // definition + 2 usages
}

#[test]
fn test_find_references_nothing() {
    let text = "all:\n\techo hello\n";
    let refs = refs(text, Position::new(1, 2), true);
    assert!(refs.is_empty());
}

#[test]
fn references_are_sorted_with_exact_ranges() {
    let text = "CC = gcc\nall:\n\t$(CC) main.c\n";
    let refs = refs(text, Position::new(2, 3), true);
    assert_eq!(refs[0].range.start, Position::new(0, 0));
    assert_eq!(refs[0].range.end, Position::new(0, 2));
    assert_eq!(refs[1].range.start, Position::new(2, 3));
    assert_eq!(refs[1].range.end, Position::new(2, 5));
    assert!(refs.iter().all(|l| l.uri == TEST_URI));
}

#[test]
fn variable_references_without_declaration() {
    let text = "CC = gcc\nall:\n\t$(CC) ${CC}\n";
    let refs = refs(text, Position::new(0, 0), false);
    assert_eq!(refs.len(), 2);
    assert_eq!(refs[0].range.start, Position::new(2, 3));
    assert_eq!(refs[1].range.start, Position::new(2, 9));
}

#[test]
fn undefined_variable_reference_still_found() {
    let text = "all:\n\t$(FOO) x\n\t$(FOO)\n";
    let refs = refs(text, Position::new(1, 3), true);
    assert_eq!(refs.len(), 2);
}

#[test]
fn phony_prerequisite_found_once() {
    let text = ".PHONY: build\nall: build\nbuild:\n\techo ok\n";
    let refs = refs(text, Position::new(1, 6), true);
    // .PHONY prerequisite, all's prerequisite, the definition; no duplicates
    assert_eq!(refs.len(), 3);
    assert_eq!(refs[0].range.start, Position::new(0, 8));
    assert_eq!(refs[1].range.start, Position::new(1, 5));
    assert_eq!(refs[2].range.start, Position::new(2, 0));
}

#[test]
fn position_past_end_has_no_references() {
    let text = "all: build\n";
    assert!(refs(text, Position::new(9, 0), true).is_empty());
}

#[test]
fn references_without_declaration_are_among_those_with_it() {
    let text = "CC = gcc\nall: build\n\t$(CC) -o app\nbuild:\n\t${CC} -c x.c\n";
    for pos in [Position::new(0, 0), Position::new(2, 3), Position::new(1, 6)] {
        let with = refs(text, pos, true);
        let without = refs(text, pos, false);
        assert!(without.len() < with.len());
        for l in &without {
            assert!(with.iter().any(|w| w.range.start == l.range.start));
        }
        for w in [&with, &without] {
            for pair in w.windows(2) {
                let (a, b) = (pair[0].range.start, pair[1].range.start);
                assert!((a.line, a.character) < (b.line, b.character));
            }
            assert!(w.iter().all(|l| l.uri == TEST_URI));
        }
    }
}
