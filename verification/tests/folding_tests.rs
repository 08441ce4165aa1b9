use makefile_lsp::folding::{generate_folding_ranges, FoldingRange, FoldingRangeKind};
use makefile_lsp::makefile::Makefile;

fn get_ranges(text: &str) -> Vec<FoldingRange> {
    let parsed = Makefile::parse(text);
    generate_folding_ranges(&parsed.makefile, text)
}

#[test]
fn test_rule_folding() {
    let ranges = get_ranges("all: build\n\techo step1\n\techo step2\n");
    assert_eq!(ranges.len(), 1);
    assert_eq!(ranges[0].start_line, 0);
    assert_eq!(ranges[0].kind, Some(FoldingRangeKind::Region));
}

#[test]
fn test_no_folding_single_line() {
    assert!(get_ranges("CC = gcc\n").is_empty());
}

#[test]
fn folding_test_empty_file() {
    assert!(get_ranges("").is_empty());
}

#[test]
fn test_comment_block_folding() {
    let text = "# This is a\n# multi-line comment\n# block\nall:\n\techo done\n";
    let ranges = get_ranges(text);
    let comments: Vec<_> = ranges
        .iter()
        .filter(|r| r.kind == Some(FoldingRangeKind::Comment))
        .collect();
    assert_eq!(comments.len(), 1);
    assert_eq!(comments[0].start_line, 0);
    assert_eq!(comments[0].end_line, 2);
}

#[test]
fn test_single_comment_no_folding() {
    let text = "# just one comment\nall:\n\techo done\n";
    let ranges = get_ranges(text);
    let comments: Vec<_> = ranges
        .iter()
        .filter(|r| r.kind == Some(FoldingRangeKind::Comment))
        .collect();
    assert!(comments.is_empty());
}

#[test]
fn test_multiple_comment_blocks() {
    let text = "# block 1\n# block 1\n\nCC = gcc\n\n# block 2\n# block 2\n";
    let ranges = get_ranges(text);
    let comments: Vec<_> = ranges
        .iter()
        .filter(|r| r.kind == Some(FoldingRangeKind::Comment))
        .collect();
    assert_eq!(comments.len(), 2);
}

#[test]
fn rule_folding_characters() {
    let ranges = get_ranges("all:\n\techo a\n");
    assert_eq!(ranges.len(), 1);
    assert_eq!(ranges[0].start_character, Some(0));
    assert_eq!(ranges[0].end_line, 2);
    assert_eq!(ranges[0].end_character, Some(0));
}

#[test]
fn multi_line_definitions_fold() {
    let text = "define GREETING\nhello\nworld\nendef\nCC = gcc\nFLAGS = -a \\\n\t-b\n";
    let ranges = get_ranges(text);
    let regions: Vec<_> = ranges.iter().map(|r| (r.start_line, r.end_line)).collect();
    assert!(regions.contains(&(0, 3)), "{:?}", regions);
    assert!(regions.contains(&(5, 6)), "{:?}", regions);
    assert!(!regions.iter().any(|&(s, _)| s == 4));
}
