use makefile_lsp::makefile::Makefile;
use makefile_lsp::position::Position;
use makefile_lsp::selection_ranges::{get_selection_ranges, SelectionRange};

fn get_sel(text: &str, pos: Position) -> SelectionRange {
    let parsed = Makefile::parse(text);
    get_selection_ranges(&parsed.makefile, text, &vec![pos])
        .into_iter()
        .next()
        .unwrap()
}

fn chain_depth(sel: &SelectionRange) -> usize {
    let mut depth = 1;
    let mut current = sel;
    while let Some(parent) = &current.parent {
        depth += 1;
        current = parent;
    }
    depth
}

#[test]
fn test_selection_range_in_rule() {
    let text = "all: build\n\techo done\n";
    let sel = get_sel(text, Position::new(0, 0));
    // Should have multiple levels: token → targets → rule → root
    assert!(chain_depth(&sel) >= 3);
}

#[test]
fn test_selection_range_in_variable() {
    let text = "CC = gcc\n";
    let sel = get_sel(text, Position::new(0, 0));
    assert!(chain_depth(&sel) >= 2);
}

#[test]
fn test_selection_range_empty() {
    let text = "";
    let sel = get_sel(text, Position::new(0, 0));
    assert!(chain_depth(&sel) >= 1);
}

#[test]
fn test_innermost_range_is_narrow() {
    let text = "CC = gcc\nall: build\n\techo done\n";
    let sel = get_sel(text, Position::new(0, 0));
    // Innermost range should be narrow (just the token "CC")
    assert_eq!(sel.range.start.line, 0);
    assert!(sel.range.end.character - sel.range.start.character <= 2);
}

#[test]
fn selection_chain_ends_with_whole_file_twice() {
    let text = "CC = gcc\n";
    let sel = get_sel(text, Position::new(0, 0));
    let mut ranges = vec![sel.range];
    let mut current = &sel;
    while let Some(parent) = &current.parent {
        ranges.push(parent.range);
        current = parent;
    }
    let n = ranges.len();
    assert_eq!(ranges[n - 1], ranges[n - 2]);
    assert_eq!(ranges[n - 1].start, Position::new(0, 0));
    assert_eq!(ranges[n - 1].end, Position::new(1, 0));
}

#[test]
fn selection_outside_text_is_the_root() {
    let text = "CC = gcc\n";
    let sel = get_sel(text, Position::new(5, 0));
    assert_eq!(chain_depth(&sel), 1);
}

#[test]
fn selection_chain_holds_cursor_and_grows() {
    let text = "CC = gcc\nall: main.o util.o\n\tgcc -o app main.o\n";
    let parsed = Makefile::parse(text);
    for pos in [Position::new(1, 6), Position::new(2, 3), Position::new(0, 1)] {
        let ranges = get_selection_ranges(&parsed.makefile, text, &vec![pos]);
        assert_eq!(ranges.len(), 1);
        let mut chain = Vec::new();
        let mut cur = Some(&ranges[0]);
        while let Some(s) = cur {
            chain.push(s.range);
            cur = s.parent.as_deref();
        }
        assert!(chain.len() >= 2);
        let before = |a: Position, b: Position| (a.line, a.character) <= (b.line, b.character);
        for r in &chain {
            assert!(before(r.start, pos) && before(pos, r.end));
        }
        for w in chain[..chain.len() - 1].windows(2) {
            assert_ne!(w[0], w[1]);
            assert!(before(w[1].start, w[0].start) && before(w[0].end, w[1].end));
        }
    }
}
