use makefile_lsp::position::{
    offset_to_position, try_lsp_range_to_text_range, try_position_to_offset, utf16_len, Position,
    Range, TextRange,
};

#[test]
fn test_utf16_len() {
    assert_eq!(utf16_len("hello"), 5);
    assert_eq!(utf16_len(""), 0);
}

#[test]
fn utf16_len_counts_surrogate_pairs() {
    // 'é' is one UTF-16 unit, '😀' is two.
    assert_eq!(utf16_len("é"), 1);
    assert_eq!(utf16_len("a😀b"), 4);
}

#[test]
fn test_offset_to_position_simple() {
    let text = "hello\nworld\n";
    assert_eq!(offset_to_position(text, 0), Position::new(0, 0));
    assert_eq!(offset_to_position(text, 6), Position::new(1, 0));
    assert_eq!(offset_to_position(text, 8), Position::new(1, 2));
}

#[test]
fn test_try_position_to_offset_simple() {
    let text = "hello\nworld\n";
    assert_eq!(try_position_to_offset(text, Position::new(0, 0)), Some(0));
    assert_eq!(try_position_to_offset(text, Position::new(1, 0)), Some(6));
}

#[test]
fn test_roundtrip() {
    let text = "all: build\n\t$(CC) -o $@ $^\n";
    let range = Range::new(Position::new(0, 0), Position::new(0, 3));
    let text_range = try_lsp_range_to_text_range(text, &range).unwrap();
    assert_eq!(&text[..text_range.end as usize], "all");
}

#[test]
fn try_position_to_offset_line_past_end_is_none() {
    let text = "a\nb";
    assert_eq!(try_position_to_offset(text, Position::new(5, 0)), None);
}

#[test]
fn try_position_to_offset_column_past_line_end_is_none() {
    let text = "ab\ncd";
    assert_eq!(try_position_to_offset(text, Position::new(0, 10)), None);
    assert_eq!(try_position_to_offset(text, Position::new(0, 2)), Some(2));
}

#[test]
fn offset_to_position_counts_utf16_columns() {
    let text = "😀x";
    assert_eq!(offset_to_position(text, 4), Position::new(0, 2));
}

#[test]
fn position_offset_round_trip_on_ascii() {
    let text = "all: b\n\techo\n";
    let off = try_position_to_offset(text, Position::new(1, 3)).unwrap();
    assert_eq!(offset_to_position(text, off as u32), Position::new(1, 3));
    let r = try_lsp_range_to_text_range(text, &Range::new(Position::new(0, 0), Position::new(1, 1)))
        .unwrap();
    assert_eq!(r, TextRange { start: 0, end: 8 });
}

#[test]
fn utf16_len_counts_units_between_chars_and_bytes() {
    let s = "a\u{1F600}é";
    assert_eq!(utf16_len(s), 4);
    assert!(s.chars().count() as u32 <= utf16_len(s) && utf16_len(s) as usize <= s.len());
    let (a, b) = ("x\u{1F600}", "éz");
    assert_eq!(utf16_len(&format!("{a}{b}")), utf16_len(a) + utf16_len(b));
}

#[test]
fn positions_outside_the_text_have_no_offset() {
    let text = "hello\nworld\n";
    assert_eq!(try_position_to_offset(text, Position::new(0, 5)), Some(5));
    assert_eq!(try_position_to_offset(text, Position::new(0, 6)), None);
    assert_eq!(try_position_to_offset(text, Position::new(2, 0)), Some(12));
    assert_eq!(try_position_to_offset(text, Position::new(3, 0)), None);
}
