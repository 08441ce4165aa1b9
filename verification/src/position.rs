//! Conversion between byte offsets and LSP positions (line, UTF-16 column).

use vstd::prelude::*;
use vstd::string::StringSliceAdditionalSpecFns;
use vstd::utf8::*;

verus! {

/// A position in a document: zero-based line and UTF-16 code unit column.
#[derive(Debug, Clone, Copy, PartialEq, Eq, Structural)]
pub struct Position {
    pub line: u32,
    pub character: u32,
}

/// A range between two positions.
#[derive(Debug, Clone, Copy, PartialEq, Eq, Structural)]
pub struct Range {
    pub start: Position,
    pub end: Position,
}

/// A range of byte offsets `start..end` into a document.
#[derive(Debug, Clone, Copy, PartialEq, Eq, Structural)]
pub struct TextRange {
    pub start: u32,
    pub end: u32,
}

impl View for Position {
    type V = Position;

    open spec fn view(&self) -> Position {
        *self
    }
}

/// Positions are ordered by line, then by column.
impl crate::sorted::OrderedKey for Position {
    open spec fn key_lt(a: Position, b: Position) -> bool {
        a.line < b.line || (a.line == b.line && a.character < b.character)
    }

    proof fn lemma_key_order(a: Position, b: Position, c: Position) {
    }

    fn less(&self, other: &Self) -> (r: bool) {
        self.line < other.line || (self.line == other.line && self.character < other.character)
    }

    fn same(&self, other: &Self) -> (r: bool) {
        self.line == other.line && self.character == other.character
    }
}

impl Position {
    pub fn new(line: u32, character: u32) -> (p: Position)
        ensures
            p.line == line,
            p.character == character,
    {
        Position { line, character }
    }
}

impl Range {
    pub fn new(start: Position, end: Position) -> (r: Range)
        ensures
            r.start == start,
            r.end == end,
    {
        Range { start, end }
    }
}

pub const NEWLINE: u8 = 10;

/// Number of UTF-16 code units contributed by one byte of a UTF-8 encoding:
/// a character counts at its leading byte, two units for 4-byte sequences.
pub open spec fn byte_utf16_units(b: u8) -> nat {
    if is_continuation_byte(b) {
        0
    } else if b >= 0xF0 {
        2
    } else {
        1
    }
}

/// UTF-16 length of the characters whose encodings start in `bs`.
pub open spec fn utf16_units(bs: Seq<u8>) -> nat
    decreases bs.len(),
{
    if bs.len() == 0 {
        0
    } else {
        utf16_units(bs.drop_last()) + byte_utf16_units(bs.last())
    }
}

/// Number of newline bytes in `bs`.
pub open spec fn count_newlines(bs: Seq<u8>) -> nat
    decreases bs.len(),
{
    if bs.len() == 0 {
        0
    } else {
        count_newlines(bs.drop_last()) + if bs.last() == NEWLINE { 1nat } else { 0nat }
    }
}

/// Byte index just after the last newline in `bs`, or 0 if there is none.
pub open spec fn last_line_start(bs: Seq<u8>) -> int
    decreases bs.len(),
{
    if bs.len() == 0 {
        0
    } else if bs.last() == NEWLINE {
        bs.len() as int
    } else {
        last_line_start(bs.drop_last())
    }
}

/// The position of byte offset `offset` in the text with encoding `bs`:
/// every character that starts before the offset has been passed.
pub open spec fn spec_offset_to_position(bs: Seq<u8>, offset: int) -> Position {
    let o = if offset < bs.len() { offset } else { bs.len() as int };
    let prefix = bs.subrange(0, o);
    let ls = last_line_start(prefix);
    Position {
        line: count_newlines(prefix) as u32,
        character: utf16_units(prefix.subrange(ls, o)) as u32,
    }
}

pub proof fn lemma_last_line_start_bounds(bs: Seq<u8>)
    ensures
        0 <= last_line_start(bs) <= bs.len(),
    decreases bs.len(),
{
    if bs.len() > 0 && bs.last() != NEWLINE {
        lemma_last_line_start_bounds(bs.drop_last());
    }
}

proof fn lemma_utf16_units_concat(a: Seq<u8>, b: Seq<u8>)
    ensures
        utf16_units(a + b) == utf16_units(a) + utf16_units(b),
    decreases b.len(),
{
    if b.len() > 0 {
        assert((a + b).drop_last() =~= a + b.drop_last());
        lemma_utf16_units_concat(a, b.drop_last());
    } else {
        assert(a + b =~= a);
    }
}

/// UTF-16 units of a prefix grow with the prefix.
pub proof fn lemma_utf16_units_prefix_mono(bs: Seq<u8>, i: int, j: int)
    requires
        0 <= i <= j <= bs.len(),
    ensures
        utf16_units(bs.subrange(0, i)) <= utf16_units(bs.subrange(0, j)),
    decreases j - i,
{
    if i < j {
        lemma_utf16_units_prefix_mono(bs, i, j - 1);
        assert(bs.subrange(0, j).drop_last() =~= bs.subrange(0, j - 1));
    }
}

pub proof fn lemma_count_bounds(bs: Seq<u8>)
    ensures
        count_newlines(bs) <= bs.len(),
        utf16_units(bs) <= 2 * bs.len(),
    decreases bs.len(),
{
    if bs.len() > 0 {
        lemma_count_bounds(bs.drop_last());
    }
}

/// UTF-16 units contributed by the byte `b`.
fn utf16_units_of(b: u8) -> (n: u64)
    ensures
        n == byte_utf16_units(b),
{
    if 0x80 <= b && b <= 0xbf {
        0
    } else if b >= 0xF0 {
        2
    } else {
        1
    }
}

/// UTF-16 code units of one character: two for a character outside the
/// Basic Multilingual Plane, one otherwise.
pub open spec fn char_utf16_units(c: char) -> nat {
    if c as u32 >= 0x10000 {
        2
    } else {
        1
    }
}

/// UTF-16 code units of a character sequence.
pub open spec fn chars_utf16_units(s: Seq<char>) -> nat
    decreases s.len(),
{
    if s.len() == 0 {
        0
    } else {
        char_utf16_units(s[0]) + chars_utf16_units(s.drop_first())
    }
}

/// The bytes of one character count as its UTF-16 units, and there are at
/// least as many bytes as units.
proof fn lemma_scalar_units(c: char)
    ensures
        utf16_units(encode_scalar(c as u32)) == char_utf16_units(c),
        char_utf16_units(c) <= encode_scalar(c as u32).len(),
{
    let v = c as u32;
    char_is_scalar(c);
    reveal_with_fuel(utf16_units, 5);
    let e = encode_scalar(v);
    if has_width_1_encoding(v) {
        assert((v & 0x7F) as u8 <= 0x7F) by (bit_vector);
        assert(e.drop_last() =~= Seq::<u8>::empty());
    } else if has_width_2_encoding(v) {
        assert(0xC0u8 | ((v >> 6) & 0x1F) as u8 >= 0xC0 && 0xC0u8 | ((v >> 6) & 0x1F) as u8 <= 0xDF) by (bit_vector);
        assert(0x80u8 | (v & 0x3F) as u8 >= 0x80 && 0x80u8 | (v & 0x3F) as u8 <= 0xBF) by (bit_vector);
        assert(e.drop_last() =~= seq![e[0]]);
        assert(e.drop_last().drop_last() =~= Seq::<u8>::empty());
    } else if has_width_3_encoding(v) {
        assert(0xE0u8 | ((v >> 12) & 0x0F) as u8 >= 0xE0 && 0xE0u8 | ((v >> 12) & 0x0F) as u8 <= 0xEF) by (bit_vector);
        assert(0x80u8 | (v & 0x3F) as u8 >= 0x80 && 0x80u8 | (v & 0x3F) as u8 <= 0xBF) by (bit_vector);
        assert(0x80u8 | ((v >> 6) & 0x3F) as u8 >= 0x80 && 0x80u8 | ((v >> 6) & 0x3F) as u8 <= 0xBF) by (bit_vector);
        assert(e.drop_last() =~= seq![e[0], e[1]]);
        assert(e.drop_last().drop_last() =~= seq![e[0]]);
        assert(e.drop_last().drop_last().drop_last() =~= Seq::<u8>::empty());
    } else {
        assert(0xF0u8 | ((v >> 18) & 0x7) as u8 >= 0xF0) by (bit_vector);
        assert(0x80u8 | (v & 0x3F) as u8 >= 0x80 && 0x80u8 | (v & 0x3F) as u8 <= 0xBF) by (bit_vector);
        assert(0x80u8 | ((v >> 6) & 0x3F) as u8 >= 0x80 && 0x80u8 | ((v >> 6) & 0x3F) as u8 <= 0xBF) by (bit_vector);
        assert(0x80u8 | ((v >> 12) & 0x3F) as u8 >= 0x80 && 0x80u8 | ((v >> 12) & 0x3F) as u8 <= 0xBF) by (bit_vector);
        assert(e.drop_last() =~= seq![e[0], e[1], e[2]]);
        assert(e.drop_last().drop_last() =~= seq![e[0], e[1]]);
        assert(e.drop_last().drop_last().drop_last() =~= seq![e[0]]);
        assert(e.drop_last().drop_last().drop_last().drop_last() =~= Seq::<u8>::empty());
    }
}

/// The UTF-16 length of a string counts each character as one code unit,
/// or two outside the Basic Multilingual Plane; so it lies between the
/// number of characters and the number of bytes.
pub proof fn lemma_utf16_units_of_chars(s: Seq<char>)
    ensures
        utf16_units(encode_utf8(s)) == chars_utf16_units(s),
        s.len() <= utf16_units(encode_utf8(s)) <= encode_utf8(s).len(),
    decreases s.len(),
{
    if s.len() == 0 {
        assert(encode_utf8(s) =~= Seq::<u8>::empty());
    } else {
        lemma_utf16_units_of_chars(s.drop_first());
        lemma_scalar_units(s[0]);
        lemma_utf16_units_concat(encode_scalar(s[0] as u32), encode_utf8(s.drop_first()));
    }
}

/// The UTF-16 length of two strings one after the other is the sum of
/// their lengths.
pub proof fn lemma_utf16_units_additive(a: Seq<char>, b: Seq<char>)
    ensures
        utf16_units(encode_utf8(a + b)) == utf16_units(encode_utf8(a)) + utf16_units(encode_utf8(b)),
{
    crate::strs::lemma_utf8_append(a, b);
    lemma_utf16_units_concat(encode_utf8(a), encode_utf8(b));
}

/// Return the UTF-16 code unit length of a string.
pub fn utf16_len(s: &str) -> (n: u32)
    requires
        utf16_units(s.spec_bytes()) <= u32::MAX,
    ensures
        n == utf16_units(s.spec_bytes()),
{
    let bytes = s.as_bytes();
    let mut total: u64 = 0;
    let mut i: usize = 0;
    while i < bytes.len()
        invariant
            bytes@ == s.spec_bytes(),
            i <= bytes.len(),
            total == utf16_units(bytes@.subrange(0, i as int)),
            utf16_units(bytes@) <= u32::MAX,
        decreases bytes.len() - i,
    {
        assert(bytes@.subrange(0, (i + 1) as int).drop_last() =~= bytes@.subrange(0, i as int));
        proof {
            lemma_utf16_units_concat(bytes@.subrange(0, (i + 1) as int), bytes@.subrange((i + 1) as int, bytes.len() as int));
            assert(bytes@.subrange(0, (i + 1) as int) + bytes@.subrange((i + 1) as int, bytes.len() as int) =~= bytes@);
        }
        total = total + utf16_units_of(bytes[i]);
        i += 1;
    }
    assert(bytes@.subrange(0, i as int) =~= bytes@);
    total as u32
}

/// Convert a byte offset to an LSP position (line, UTF-16 column).
pub fn offset_to_position(text: &str, offset: u32) -> (p: Position)
    requires
        text.spec_bytes().len() <= u32::MAX,
    ensures
        p == spec_offset_to_position(text.spec_bytes(), offset as int),
{
    let bytes = text.as_bytes();
    let end: usize = if (offset as usize) < bytes.len() { offset as usize } else { bytes.len() };
    let mut line: u64 = 0;
    let mut col: u64 = 0;
    let mut i: usize = 0;
    while i < end
        invariant
            bytes@ == text.spec_bytes(),
            bytes.len() <= u32::MAX,
            i <= end <= bytes.len(),
            line == count_newlines(bytes@.subrange(0, i as int)),
            col == utf16_units(
                bytes@.subrange(0, i as int).subrange(
                    last_line_start(bytes@.subrange(0, i as int)),
                    i as int,
                ),
            ),
            line <= i,
            col <= 2 * i,
        decreases end - i,
    {
        let ghost prev = bytes@.subrange(0, i as int);
        let ghost next = bytes@.subrange(0, (i + 1) as int);
        assert(next.drop_last() =~= prev);
        proof {
            lemma_last_line_start_bounds(prev);
        }
        if bytes[i] == NEWLINE {
            line = line + 1;
            col = 0;
            assert(next.subrange(last_line_start(next), (i + 1) as int).len() == 0);
        } else {
            let ghost ls = last_line_start(prev);
            assert(next.subrange(ls, (i + 1) as int).drop_last() =~= prev.subrange(ls, i as int));
            proof {
                lemma_count_bounds(prev.subrange(ls, i as int));
            }
            col = col + utf16_units_of(bytes[i]);
        }
        i += 1;
    }
    Position { line: line as u32, character: col as u32 }
}

/// The LSP range of the byte range `range` of the text with encoding `bs`.
pub open spec fn lsp_range(bs: Seq<u8>, range: TextRange) -> Range {
    Range {
        start: spec_offset_to_position(bs, range.start as int),
        end: spec_offset_to_position(bs, range.end as int),
    }
}

/// Convert a byte range to an LSP range.
pub fn text_range_to_lsp_range(text: &str, range: TextRange) -> (r: Range)
    requires
        text.spec_bytes().len() <= u32::MAX,
    ensures
        r == lsp_range(text.spec_bytes(), range),
        r.start == spec_offset_to_position(text.spec_bytes(), range.start as int),
        r.end == spec_offset_to_position(text.spec_bytes(), range.end as int),
{
    Range {
        start: offset_to_position(text, range.start),
        end: offset_to_position(text, range.end),
    }
}

/// Byte index at which line `n` (zero-based) starts, if the text has that many lines.
pub open spec fn line_start(bs: Seq<u8>, n: nat) -> Option<int>
    decreases bs.len(),
{
    if n == 0 {
        Some(0)
    } else if bs.len() == 0 {
        None
    } else {
        match line_start(bs.drop_first(), if bs[0] == NEWLINE { (n - 1) as nat } else { n }) {
            Some(k) => Some(k + 1),
            None => None,
        }
    }
}

/// Scanning a line from byte `j` with `remaining` UTF-16 units still to pass:
/// the byte offset of the first character boundary where the column has been
/// reached, the end of the line counting when the column is reached exactly there.
pub open spec fn column_offset(bs: Seq<u8>, j: int, remaining: int) -> Option<int>
    decreases bs.len() - j,
{
    if j >= bs.len() || j < 0 {
        if remaining <= 0 && j >= 0 { Some(j) } else { None }
    } else if is_continuation_byte(bs[j]) {
        column_offset(bs, j + 1, remaining)
    } else if remaining <= 0 {
        Some(j)
    } else if bs[j] == NEWLINE {
        None
    } else {
        column_offset(bs, j + 1, remaining - byte_utf16_units(bs[j]))
    }
}

/// The byte offset of an LSP position, if it lies within the text.
pub open spec fn spec_position_to_offset(bs: Seq<u8>, p: Position) -> Option<int> {
    match line_start(bs, p.line as nat) {
        Some(ls) => match column_offset(bs, ls, p.character as int) {
            Some(o) => if o <= u32::MAX { Some(o) } else { None },
            None => None,
        },
        None => None,
    }
}

proof fn lemma_line_start_bounds(bs: Seq<u8>, n: nat)
    ensures
        line_start(bs, n) matches Some(k) ==> 0 <= k <= bs.len(),
    decreases bs.len(),
{
    if n != 0 && bs.len() != 0 {
        lemma_line_start_bounds(bs.drop_first(), if bs[0] == NEWLINE { (n - 1) as nat } else { n });
    }
}

/// `line_start` computed by a forward scan: the state after scanning `bs[..i]`.
proof fn lemma_line_start_step(bs: Seq<u8>, n: nat, i: int, line: nat, ls: int)
    requires
        0 <= i < bs.len(),
        line < n,
        line_start(bs, n) == (match line_start(bs.subrange(i, bs.len() as int), (n - line) as nat) {
            Some(k) => Some(k + i),
            None => None,
        }),
    ensures
        ({
            let line2 = if bs[i] == NEWLINE { line + 1 } else { line };
            line_start(bs, n) == (match line_start(
                bs.subrange(i + 1, bs.len() as int),
                (n - line2) as nat,
            ) {
                Some(k) => Some(k + i + 1),
                None => None,
            })
        }),
{
    let rest = bs.subrange(i, bs.len() as int);
    assert(rest.drop_first() =~= bs.subrange(i + 1, bs.len() as int));
}

/// Convert an LSP position to a byte offset, if it lies within the text.
pub fn try_position_to_offset(text: &str, position: Position) -> (r: Option<usize>)
    ensures
        r matches Some(o) ==> spec_position_to_offset(text.spec_bytes(), position) == Some(o as int),
        r is None ==> spec_position_to_offset(text.spec_bytes(), position) is None,
{
    let bytes = text.as_bytes();
    let ghost bs = bytes@;
    let mut line: u32 = 0;
    let mut line_start_idx: usize = 0;
    let mut i: usize = 0;
    // Find the start of the requested line.
    assert(bs.subrange(0, bs.len() as int) =~= bs);
    while i < bytes.len() && line < position.line
        invariant
            bs == text.spec_bytes(),
            bytes@ == bs,
            i <= bytes.len(),
            line <= position.line,
            line_start_idx <= i,
            line == position.line ==> line_start(bs, position.line as nat) == Some(line_start_idx as int),
            line < position.line ==> line_start(bs, position.line as nat) == (match line_start(
                bs.subrange(i as int, bs.len() as int),
                (position.line - line) as nat,
            ) {
                Some(k) => Some(k + i),
                None => None,
            }),
        decreases bytes.len() - i,
    {
        proof {
            lemma_line_start_step(bs, position.line as nat, i as int, line as nat, line_start_idx as int);
        }
        if bytes[i] == NEWLINE {
            line = line + 1;
            line_start_idx = i + 1;
        }
        i += 1;
    }
    if line < position.line {
        assert(bs.subrange(i as int, bs.len() as int).len() == 0);
        return None;
    }
    // Scan the line for the requested UTF-16 column.
    let target: u64 = position.character as u64;
    let mut col: u64 = 0;
    let mut j: usize = line_start_idx;
    proof {
        lemma_line_start_bounds(bs, position.line as nat);
    }
    loop
        invariant
            bs == text.spec_bytes(),
            bytes@ == bs,
            line_start_idx <= j <= bytes.len(),
            col <= u32::MAX + 2,
            target == position.character,
            column_offset(bs, line_start_idx as int, position.character as int) == column_offset(
                bs,
                j as int,
                (position.character as int) - (col as int),
            ),
            line_start(bs, position.line as nat) == Some(line_start_idx as int),
        decreases bytes.len() - j,
    {
        if j >= bytes.len() {
            assert(column_offset(bs, j as int, (position.character as int) - (col as int)) == (if (position.character as int) - (col as int) <= 0 { Some(j as int) } else { None::<int> }));
            if col >= target {
                if j <= u32::MAX as usize {
                    return Some(j);
                }
            }
            return None;
        }
        let b = bytes[j];
        if 0x80 <= b && b <= 0xbf {
            assert(column_offset(bs, j as int, (position.character as int) - (col as int)) == column_offset(bs, j + 1, (position.character as int) - (col as int)));
            j += 1;
        } else {
            assert(column_offset(bs, j as int, (position.character as int) - (col as int)) == (if (position.character as int) - (col as int) <= 0 { Some(j as int) }
                else if bs[j as int] == NEWLINE { None } else { column_offset(bs, j + 1, (position.character as int) - (col as int) - byte_utf16_units(bs[j as int])) }));
            if col >= target {
                if j <= u32::MAX as usize {
                    return Some(j);
                }
                return None;
            }
            if b == NEWLINE {
                assert(!((position.character as int) - (col as int) <= 0));
                assert(bs[j as int] == NEWLINE);
                assert(column_offset(bs, j as int, (position.character as int) - (col as int)) is None);
                assert(column_offset(bs, line_start_idx as int, position.character as int) is None);
                assert(line_start(bs, position.line as nat) == Some(line_start_idx as int));
                assert(spec_position_to_offset(bs, position) is None);
                return None;
            }
            col = col + utf16_units_of(b);
            j += 1;
        }
    }
}

/// Convert an LSP range to a byte range, if both ends lie within the text.
pub fn try_lsp_range_to_text_range(text: &str, range: &Range) -> (r: Option<TextRange>)
    requires
        (spec_position_to_offset(text.spec_bytes(), range.start), spec_position_to_offset(text.spec_bytes(), range.end))
            matches (Some(s), Some(e)) ==> s <= e,
    ensures
        r matches Some(t) ==> spec_position_to_offset(text.spec_bytes(), range.start) == Some(
            t.start as int,
        ) && spec_position_to_offset(text.spec_bytes(), range.end) == Some(t.end as int),
        r is None ==> spec_position_to_offset(text.spec_bytes(), range.start) is None
            || spec_position_to_offset(text.spec_bytes(), range.end) is None,
{
    let start = try_position_to_offset(text, range.start)?;
    let end = try_position_to_offset(text, range.end)?;
    Some(TextRange { start: start as u32, end: end as u32 })
}


proof fn lemma_column_offset_bounds(bs: Seq<u8>, j: int, remaining: int)
    requires
        0 <= j,
    ensures
        column_offset(bs, j, remaining) matches Some(o) ==> j <= o && (o <= bs.len() || o == j),
    decreases bs.len() - j,
{
    if j < bs.len() {
        if is_continuation_byte(bs[j]) {
            lemma_column_offset_bounds(bs, j + 1, remaining);
        } else if remaining > 0 && bs[j] != NEWLINE {
            lemma_column_offset_bounds(bs, j + 1, remaining - byte_utf16_units(bs[j]));
        }
    }
}

/// The offset of a position lies within the text.
pub proof fn lemma_position_to_offset_bounds(bs: Seq<u8>, p: Position)
    ensures
        spec_position_to_offset(bs, p) matches Some(o) ==> 0 <= o <= bs.len(),
{
    lemma_line_start_bounds(bs, p.line as nat);
    if let Some(ls) = line_start(bs, p.line as nat) {
        lemma_column_offset_bounds(bs, ls, p.character as int);
    }
}

/// The end of the line that holds byte `j`: the first newline at or after
/// `j`, or the end of the text.
pub open spec fn line_end(bs: Seq<u8>, j: int) -> int
    decreases bs.len() - j,
{
    if j < 0 || j >= bs.len() || bs[j] == NEWLINE {
        j
    } else {
        line_end(bs, j + 1)
    }
}

proof fn lemma_count_newlines_front(bs: Seq<u8>)
    requires
        bs.len() > 0,
    ensures
        count_newlines(bs) == (if bs[0] == NEWLINE { 1nat } else { 0nat }) + count_newlines(bs.drop_first()),
    decreases bs.len(),
{
    if bs.len() > 1 {
        lemma_count_newlines_front(bs.drop_last());
        assert(bs.drop_last().drop_first() =~= bs.drop_first().drop_last());
    } else {
        assert(bs.drop_first() =~= Seq::<u8>::empty());
        assert(bs.drop_last() =~= Seq::<u8>::empty());
    }
}

/// Line `n` exists exactly when there are at least `n` newlines.
proof fn lemma_line_start_exists(bs: Seq<u8>, n: nat)
    ensures
        line_start(bs, n) is Some <==> n <= count_newlines(bs),
    decreases bs.len(),
{
    if n != 0 && bs.len() != 0 {
        lemma_count_newlines_front(bs);
        lemma_line_start_exists(bs.drop_first(), if bs[0] == NEWLINE { (n - 1) as nat } else { n });
    }
}

/// Units of a sequence, its first byte then the rest.
proof fn lemma_utf16_units_front(bs: Seq<u8>)
    requires
        bs.len() > 0,
    ensures
        utf16_units(bs) == byte_utf16_units(bs[0]) + utf16_units(bs.drop_first()),
{
    assert(bs =~= seq![bs[0]] + bs.drop_first());
    lemma_utf16_units_concat(seq![bs[0]], bs.drop_first());
    reveal_with_fuel(utf16_units, 2);
    assert(seq![bs[0]].drop_last() =~= Seq::<u8>::empty());
}

/// A column exists on the line from `j` exactly when it does not pass the
/// UTF-16 length of the rest of the line.
proof fn lemma_column_offset_exists(bs: Seq<u8>, j: int, r: int)
    requires
        0 <= j <= bs.len(),
    ensures
        j <= line_end(bs, j) <= bs.len(),
        column_offset(bs, j, r) is Some <==> r <= utf16_units(bs.subrange(j, line_end(bs, j))),
    decreases bs.len() - j,
{
    if j == bs.len() {
        assert(bs.subrange(j, j) =~= Seq::<u8>::empty());
    } else if bs[j] == NEWLINE {
        assert(bs.subrange(j, j) =~= Seq::<u8>::empty());
    } else {
        let le = line_end(bs, j + 1);
        if is_continuation_byte(bs[j]) {
            lemma_column_offset_exists(bs, j + 1, r);
        } else {
            lemma_column_offset_exists(bs, j + 1, r - byte_utf16_units(bs[j]));
        }
        lemma_utf16_units_front(bs.subrange(j, le));
        assert(bs.subrange(j, le).drop_first() =~= bs.subrange(j + 1, le));
    }
}

/// A position lies in the text exactly when its line exists and its column
/// does not pass the UTF-16 length of that line (without its newline).
pub proof fn lemma_position_in_text(bs: Seq<u8>, p: Position)
    requires
        bs.len() <= u32::MAX,
    ensures
        spec_position_to_offset(bs, p) is Some <==> (p.line <= count_newlines(bs) && ({
            let ls = line_start(bs, p.line as nat).unwrap();
            p.character <= utf16_units(bs.subrange(ls, line_end(bs, ls)))
        })),
{
    lemma_line_start_exists(bs, p.line as nat);
    lemma_line_start_bounds(bs, p.line as nat);
    lemma_position_to_offset_bounds(bs, p);
    if let Some(ls) = line_start(bs, p.line as nat) {
        lemma_column_offset_exists(bs, ls, p.character as int);
        lemma_column_offset_bounds(bs, ls, p.character as int);
    }
}

/// No newline follows the last line start of `bs`.
proof fn lemma_no_newline_after_line_start(bs: Seq<u8>, k: int)
    requires
        last_line_start(bs) <= k < bs.len(),
    ensures
        bs[k] != NEWLINE,
    decreases bs.len(),
{
    lemma_last_line_start_bounds(bs);
    if k < bs.len() - 1 {
        assert(bs.drop_last()[k] == bs[k]);
        lemma_no_newline_after_line_start(bs.drop_last(), k);
    }
}

/// The line after a line that starts at `s` and ends with the newline at
/// `o` starts at `o + 1`.
pub proof fn lemma_line_start_next(bs: Seq<u8>, c: nat, s: int, o: int)
    requires
        line_start(bs, c) == Some(s),
        s <= o < bs.len(),
        bs[o] == NEWLINE,
        forall|k: int| s <= k < o ==> bs[k] != NEWLINE,
    ensures
        line_start(bs, c + 1) == Some(o + 1),
    decreases bs.len(),
{
    let tail = bs.drop_first();
    if c == 0 {
        if o > 0 {
            assert(bs[0] != NEWLINE);
            assert forall|k: int| 0 <= k < o - 1 implies tail[k] != NEWLINE by {
                assert(tail[k] == bs[k + 1]);
            }
            lemma_line_start_next(tail, 0, 0, o - 1);
        }
    } else {
        let c1: nat = if bs[0] == NEWLINE { (c - 1) as nat } else { c };
        lemma_line_start_bounds(tail, c1);
        assert(line_start(tail, c1) == Some(s - 1));
        assert forall|k: int| s - 1 <= k < o - 1 implies tail[k] != NEWLINE by {
            assert(tail[k] == bs[k + 1]);
        }
        lemma_line_start_next(tail, c1, s - 1, o - 1);
        assert((if bs[0] == NEWLINE { c } else { c + 1 }) == c1 + 1);
    }
}

/// The line of a prefix, counted by its newlines, starts where the prefix's
/// last line starts.
proof fn lemma_line_start_of_prefix(bs: Seq<u8>, o: int)
    requires
        0 <= o <= bs.len(),
    ensures
        line_start(bs, count_newlines(bs.subrange(0, o))) == Some(last_line_start(bs.subrange(0, o))),
    decreases o,
{
    if o > 0 {
        let pre = bs.subrange(0, o);
        assert(pre.drop_last() =~= bs.subrange(0, o - 1));
        lemma_line_start_of_prefix(bs, o - 1);
        if bs[o - 1] == NEWLINE {
            let prev = bs.subrange(0, o - 1);
            let s = last_line_start(prev);
            lemma_last_line_start_bounds(prev);
            assert forall|k: int| s <= k < o - 1 implies bs[k] != NEWLINE by {
                lemma_no_newline_after_line_start(prev, k);
            }
            lemma_line_start_next(bs, count_newlines(prev), s, o - 1);
        }
    }
}

/// Walking a line from byte `j` with the UTF-16 units of `bs[j..o]` to pass
/// stops at `o`, when no newline lies in between and `o` does not fall
/// inside a character.
proof fn lemma_column_offset_reaches(bs: Seq<u8>, j: int, o: int)
    requires
        0 <= j <= o <= bs.len(),
        forall|k: int| j <= k < o ==> bs[k] != NEWLINE,
        o < bs.len() ==> !is_continuation_byte(bs[o]),
    ensures
        column_offset(bs, j, utf16_units(bs.subrange(j, o)) as int) == Some(o),
    decreases o - j,
{
    if j < o {
        let seg = bs.subrange(j, o);
        assert(seg =~= seq![bs[j]] + bs.subrange(j + 1, o));
        lemma_utf16_units_concat(seq![bs[j]], bs.subrange(j + 1, o));
        let one = seq![bs[j]];
        assert(one.drop_last() =~= Seq::<u8>::empty());
        assert(one.last() == bs[j]);
        assert(utf16_units(one.drop_last()) == 0);
        assert(utf16_units(one) == byte_utf16_units(bs[j]));
        assert(utf16_units(seg) == byte_utf16_units(bs[j]) + utf16_units(bs.subrange(j + 1, o)));
        lemma_column_offset_reaches(bs, j + 1, o);
        assert(column_offset(bs, j + 1, utf16_units(bs.subrange(j + 1, o)) as int) == Some(o));
    } else {
        assert(bs.subrange(j, o) =~= Seq::<u8>::empty());
    }
}

/// Converting a byte offset to a position and back gives the offset again,
/// for every offset of the text that does not fall inside a character.
pub proof fn lemma_offset_position_roundtrip(bs: Seq<u8>, o: int)
    requires
        valid_utf8(bs),
        bs.len() <= u32::MAX,
        0 <= o <= bs.len(),
        is_char_boundary(bs, o),
    ensures
        spec_position_to_offset(bs, spec_offset_to_position(bs, o)) == Some(o),
{
    let pre = bs.subrange(0, o);
    let ls = last_line_start(pre);
    lemma_last_line_start_bounds(pre);
    valid_utf8_split(bs, o);
    decode_utf8_encode_utf8(pre);
    lemma_utf16_units_of_chars(decode_utf8(pre));
    assert(pre =~= pre.subrange(0, ls) + pre.subrange(ls, o));
    lemma_utf16_units_concat(pre.subrange(0, ls), pre.subrange(ls, o));
    assert(utf16_units(bs.subrange(ls, o)) <= u32::MAX) by {
        assert(pre.subrange(ls, o) =~= bs.subrange(ls, o));
    }
    lemma_count_bounds(pre);
    lemma_line_start_of_prefix(bs, o);
    assert(pre.subrange(ls, o) =~= bs.subrange(ls, o));
    if o < bs.len() {
        is_char_boundary_iff_not_is_continuation_byte(bs, o);
    }
    assert forall|k: int| ls <= k < o implies bs[k] != NEWLINE by {
        lemma_no_newline_after_line_start(pre, k);
    }
    lemma_column_offset_reaches(bs, ls, o);
}

/// No line starts after the last one: past the line starting at `s`, with
/// no newline after `s`, there are no more lines.
pub proof fn lemma_line_start_beyond(bs: Seq<u8>, c: nat, s: int, n: nat)
    requires
        line_start(bs, c) == Some(s),
        forall|k: int| s <= k < bs.len() ==> bs[k] != NEWLINE,
        n > c,
    ensures
        line_start(bs, n) is None,
    decreases bs.len(),
{
    if bs.len() > 0 {
        let tail = bs.drop_first();
        if c == 0 {
            assert(bs[0] != NEWLINE);
            assert forall|k: int| 0 <= k < tail.len() implies tail[k] != NEWLINE by {
                assert(tail[k] == bs[k + 1]);
            }
            lemma_line_start_beyond(tail, 0, 0, n);
        } else {
            let c1: nat = if bs[0] == NEWLINE { (c - 1) as nat } else { c };
            lemma_line_start_bounds(tail, c1);
            assert(line_start(tail, c1) == Some(s - 1));
            assert forall|k: int| s - 1 <= k < tail.len() implies tail[k] != NEWLINE by {
                assert(tail[k] == bs[k + 1]);
            }
            let n1: nat = if bs[0] == NEWLINE { (n - 1) as nat } else { n };
            lemma_line_start_beyond(tail, c1, s - 1, n1);
        }
    }
}

/// A column walk stops at the end of the text or at a byte that does not
/// continue a character.
proof fn lemma_column_offset_stop(bs: Seq<u8>, j: int, remaining: int)
    requires
        0 <= j <= bs.len(),
    ensures
        column_offset(bs, j, remaining) matches Some(o) ==> 0 <= o <= bs.len() && (o == bs.len()
            || !is_continuation_byte(bs[o])),
    decreases bs.len() - j,
{
    if 0 <= j < bs.len() {
        if is_continuation_byte(bs[j]) {
            lemma_column_offset_stop(bs, j + 1, remaining);
        } else if remaining > 0 && bs[j] != NEWLINE {
            lemma_column_offset_stop(bs, j + 1, remaining - byte_utf16_units(bs[j]));
        }
    }
}

/// The offset of a position lies on a character boundary.
pub proof fn lemma_position_offset_boundary(bs: Seq<u8>, p: Position)
    requires
        valid_utf8(bs),
    ensures
        spec_position_to_offset(bs, p) matches Some(o) ==> is_char_boundary(bs, o),
{
    lemma_line_start_bounds(bs, p.line as nat);
    if let Some(ls) = line_start(bs, p.line as nat) {
        lemma_column_offset_stop(bs, ls, p.character as int);
        if let Some(o) = column_offset(bs, ls, p.character as int) {
            if o < bs.len() {
                is_char_boundary_iff_not_is_continuation_byte(bs, o);
            } else {
                is_char_boundary_start_end_of_seq(bs);
            }
        }
    }
}

} // verus!
