use makefile_lsp::inlay_hints::{get_inlay_hints, InlayHint};
use makefile_lsp::makefile::Makefile;
use makefile_lsp::position::{Position, Range};

fn get_hints(text: &str) -> Vec<InlayHint> {
    let parsed = Makefile::parse(text);
    let range = Range::new(Position::new(0, 0), Position::new(100, 0));
    get_inlay_hints(&parsed.makefile, text, range)
}

#[test]
fn test_simply_expanded_hint() {
    let text = "CC := gcc\nCFLAGS := $(CC) -Wall\n";
    let hints = get_hints(text);
    // $(CC) in the CFLAGS definition should get a hint
    assert_eq!(hints.len(), 1);
    assert!(hints[0].label.contains("gcc"));
}

#[test]
fn test_no_hint_for_recursive() {
    let text = "CC = gcc\nCFLAGS = $(CC) -Wall\n";
    let hints = get_hints(text);
    // Recursively-expanded variables don't get hints
    assert!(hints.is_empty());
}

#[test]
fn test_no_hint_for_undefined() {
    let text = "CFLAGS := $(UNDEFINED) -Wall\n";
    let hints = get_hints(text);
    assert!(hints.is_empty());
}

fn depth_hints(text: &str) -> Vec<String> {
    get_hints(text)
        .into_iter()
        .filter_map(|h| if h.label.starts_with("depth ") { Some(h.label) } else { None })
        .collect()
}

#[test]
fn test_depth_hint_on_top_level_target() {
    // a -> b -> c -> d: a is top-level and has depth 3.
    let text = "a: b\n\t@:\nb: c\n\t@:\nc: d\n\t@:\nd:\n\t@:\n";
    let hints = depth_hints(text);
    assert_eq!(hints, vec!["depth 3".to_string()]);
}

#[test]
fn test_no_depth_hint_below_threshold() {
    // a -> b: depth is only 1, below the threshold of 2.
    let text = "a: b\n\t@:\nb:\n\t@:\n";
    let hints = depth_hints(text);
    assert!(hints.is_empty());
}

#[test]
fn test_no_depth_hint_for_referenced_target() {
    // 'b' is depth 1, but it's referenced by 'a', so it isn't top-level.
    // 'a' is depth 2 and *is* top-level.
    let text = "a: b\n\t@:\nb: c\n\t@:\nc: d\n\t@:\nd:\n\t@:\n";
    let hints = depth_hints(text);
    assert_eq!(hints, vec!["depth 3".to_string()]);
}

#[test]
fn test_no_depth_hint_for_multi_target_rule() {
    // `a b: c` has two targets; we skip the hint to avoid ambiguity.
    let text = "a b: c\n\t@:\nc: d\n\t@:\nd:\n\t@:\n";
    let hints = depth_hints(text);
    assert!(hints.is_empty());
}

#[test]
fn test_no_depth_hint_for_pattern_rule() {
    let text = "%.o: %.c\n\t@:\nfoo.c: bar.c\n\t@:\nbar.c:\n\t@:\n";
    let hints = depth_hints(text);
    // foo.c has depth 1 -> below threshold, no hint. Pattern rule excluded.
    assert!(hints.is_empty());
}

#[test]
fn test_depth_hint_anchored_at_end_of_target() {
    let text = "all: build\n\t@:\nbuild: dep\n\t@:\ndep:\n\t@:\n";
    let hints = get_hints(text);
    let depth: Vec<_> = hints.iter().filter(|h| h.label.starts_with("depth ")).collect();
    assert_eq!(depth.len(), 1);
    // 'all' is on line 0, end of "all" is column 3.
    assert_eq!(depth[0].position.line, 0);
    assert_eq!(depth[0].position.character, 3);
}

#[test]
fn test_hint_truncation() {
    let long_value = "a".repeat(60);
    let text = format!("VAR := {}\nOTHER := $(VAR)\n", long_value);
    let hints = get_hints(&text);
    assert_eq!(hints.len(), 1);
    assert!(hints[0].label.contains("..."));
    assert!(hints[0].label.len() < 50);
}

#[test]
fn value_hint_label_and_position() {
    let text = "CC := gcc\nCFLAGS := $(CC) -Wall\n";
    let hints = get_hints(text);
    assert_eq!(hints[0].label, ": gcc");
    assert_eq!(hints[0].position, Position::new(1, 15));
}

#[test]
fn depth_hint_in_cycle_counts_simple_paths() {
    // top -> a -> b -> a: the walk never revisits a target.
    let text = "top: a\n\t@:\na: b\n\t@:\nb: a\n\t@:\n";
    let hints = depth_hints(text);
    assert_eq!(hints, vec!["depth 2".to_string()]);
}

#[test]
fn hints_outside_range_are_dropped() {
    let text = "CC := gcc\n\n\nX := $(CC)\n";
    let parsed = Makefile::parse(text);
    let range = Range::new(Position::new(0, 0), Position::new(1, 0));
    assert!(get_inlay_hints(&parsed.makefile, text, range).is_empty());
}
