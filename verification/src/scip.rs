//! SCIP index generation for Makefiles.
//!
//! The index covers rule targets (definitions and prerequisite references)
//! and variables (definitions and `$(VAR)`/`${VAR}`/`$X` references).
//! References to built-in and automatic variables carry the documentation
//! that the hover serves. Symbol positions are UTF-8 byte offsets from the
//! start of the line.

use vstd::prelude::*;
use vstd::string::StringSliceAdditionalSpecFns;
use vstd::utf8::*;

use crate::goto::{is_ascii_alnum, is_ascii_alnum_byte, TAB};
use crate::position::{count_newlines, last_line_start, lemma_count_bounds, lemma_last_line_start_bounds, NEWLINE};
use crate::makefile::{parsed_rules, parsed_variables, rules_view, variables_view, Makefile, RuleView, VariableDefinitionView};
use crate::position::{spec_position_to_offset, try_lsp_range_to_text_range, try_position_to_offset, TextRange};
use crate::diagnostics::{get_diagnostics, spec_diagnostics, diagnostics_view, DiagnosticSeverity, DiagnosticView as LspDiagnosticView};
use crate::makefile::{errors_view, parsed_errors, parsed_makefile, Parse};
use crate::builtins::{find_automatic_variable, find_builtin_variable, find_special_target, lookup_doc, spec_automatic_doc, spec_builtin_variable_docs, spec_special_targets};
use crate::sorted::{first_entries_by_key, first_key_index, lemma_first_per_key_view_unique, first_per_key_view, entries_view, lemma_first_key_index_bounds, lemma_first_per_key_view, OrderedKey};
use crate::strs::{contains_string, lemma_str_lt_order, str_eq, str_less, str_lt, lemma_boundary_after_ascii, lemma_boundary_at_ascii, strings_view, substr, utf8};

verus! {

broadcast use vstd::utf8::encode_utf8_valid_utf8, vstd::utf8::encode_utf8_decode_utf8;

pub const HASH: u8 = 0x23;
pub const DOLLAR: u8 = 0x24;
pub const LPAREN: u8 = 0x28;
pub const RPAREN: u8 = 0x29;
pub const LBRACE: u8 = 0x7b;
pub const RBRACE: u8 = 0x7d;
pub const SPACE: u8 = 0x20;
pub const COMMA: u8 = 0x2c;

// ---------------------------------------------------------------------------
// Whole-word search

/// Bytes that make up a word for whole-word matching.
pub open spec fn word_byte(b: u8) -> bool {
    is_ascii_alnum(b) || b == 0x5f
}

pub fn is_word_byte(b: u8) -> (r: bool)
    ensures
        r == word_byte(b),
{
    is_ascii_alnum_byte(b) || b == 0x5f
}

/// `w` occurs in `h` at byte `i`.
pub open spec fn occurs_at(h: Seq<u8>, w: Seq<u8>, i: int) -> bool {
    0 <= i && i + w.len() <= h.len() && h.subrange(i, i + w.len()) == w
}

/// The occurrence of `w` at byte `i` of `h` stands as a whole word: no word
/// byte right before or right after it.
pub open spec fn whole_word_at(h: Seq<u8>, w: Seq<u8>, i: int) -> bool {
    &&& (i == 0 || !word_byte(h[i - 1]))
    &&& (i + w.len() >= h.len() || !word_byte(h[i + w.len()]))
}

/// The starts of the non-overlapping occurrences of `w` in `h` from byte `i`
/// on, found from left to right, that stand as whole words.
pub open spec fn whole_word_matches(h: Seq<u8>, w: Seq<u8>, i: int) -> Seq<int>
    decreases h.len() - i,
{
    if w.len() == 0 || i < 0 || i + w.len() > h.len() {
        seq![]
    } else if occurs_at(h, w, i) {
        let rest = whole_word_matches(h, w, i + w.len());
        if whole_word_at(h, w, i) {
            seq![i] + rest
        } else {
            rest
        }
    } else {
        whole_word_matches(h, w, i + 1)
    }
}

/// The integer values of a sequence of offsets.
pub open spec fn offsets_view(v: Seq<usize>) -> Seq<int> {
    v.map_values(|x: usize| x as int)
}

fn occurs_at_exec(h: &[u8], w: &[u8], i: usize) -> (r: bool)
    requires
        i + w@.len() <= h@.len(),
    ensures
        r == occurs_at(h@, w@, i as int),
{
    let hl = h.len();
    let mut k: usize = 0;
    while k < w.len()
        invariant
            hl == h@.len(),
            k <= w@.len(),
            i + w@.len() <= h@.len(),
            forall|m: int| 0 <= m < k ==> h@[i + m] == w@[m],
        decreases w@.len() - k,
    {
        if h[i + k] != w[k] {
            assert(h@.subrange(i as int, i + w@.len())[k as int] != w@[k as int]);
            return false;
        }
        k += 1;
    }
    assert(h@.subrange(i as int, i + w@.len()) =~= w@);
    true
}

/// Byte offsets of all whole-word occurrences of `w` in `h`.
pub fn find_words_in(h: &[u8], w: &[u8]) -> (r: Vec<usize>)
    ensures
        offsets_view(r@) == whole_word_matches(h@, w@, 0),
{
    let mut out: Vec<usize> = Vec::new();
    if w.len() == 0 || w.len() > h.len() {
        assert(offsets_view(out@) =~= seq![]);
        return out;
    }
    let hl = h.len();
    let last = hl - w.len();
    let mut i: usize = 0;
    while i <= last
        invariant
            hl == h@.len(),
            0 < w@.len() <= h@.len(),
            last == h@.len() - w@.len(),
            i <= h@.len(),
            offsets_view(out@) + whole_word_matches(h@, w@, i as int) == whole_word_matches(
                h@,
                w@,
                0,
            ),
        decreases h@.len() - i,
    {
        let ghost before = out@;
        if occurs_at_exec(h, w, i) {
            let after = i + w.len();
            let before_ok = i == 0 || !is_word_byte(h[i - 1]);
            let after_ok = after >= h.len() || !is_word_byte(h[after]);
            if before_ok && after_ok {
                out.push(i);
                assert(offsets_view(out@) =~= offsets_view(before) + seq![i as int]);
            }
            i = after;
        } else {
            i += 1;
        }
    }
    assert(whole_word_matches(h@, w@, i as int) =~= seq![]);
    assert(offsets_view(out@) + seq![] =~= offsets_view(out@));
    out
}

/// The starts of the non-overlapping occurrences of `w` in `h` from byte
/// `i` on, found from left to right.
pub open spec fn all_matches(h: Seq<u8>, w: Seq<u8>, i: int) -> Seq<int>
    decreases h.len() - i,
{
    if w.len() == 0 || i < 0 || i + w.len() > h.len() {
        seq![]
    } else if occurs_at(h, w, i) {
        seq![i] + all_matches(h, w, i + w.len())
    } else {
        all_matches(h, w, i + 1)
    }
}

/// Byte offsets of the non-overlapping occurrences of `w` in `h`.
pub fn find_all_in(h: &[u8], w: &[u8]) -> (r: Vec<usize>)
    ensures
        offsets_view(r@) == all_matches(h@, w@, 0),
{
    let mut out: Vec<usize> = Vec::new();
    if w.len() == 0 || w.len() > h.len() {
        assert(offsets_view(out@) =~= seq![]);
        return out;
    }
    let hl = h.len();
    let last = hl - w.len();
    let mut i: usize = 0;
    while i <= last
        invariant
            hl == h@.len(),
            0 < w@.len() <= h@.len(),
            last == h@.len() - w@.len(),
            i <= h@.len(),
            offsets_view(out@) + all_matches(h@, w@, i as int) == all_matches(h@, w@, 0),
        decreases h@.len() - i,
    {
        let ghost before = out@;
        if occurs_at_exec(h, w, i) {
            out.push(i);
            assert(offsets_view(out@) =~= offsets_view(before) + seq![i as int]);
            i = i + w.len();
        } else {
            i += 1;
        }
    }
    assert(all_matches(h@, w@, i as int) =~= seq![]);
    assert(offsets_view(out@) + seq![] =~= offsets_view(out@));
    out
}

pub proof fn lemma_all_matches_bounds(h: Seq<u8>, w: Seq<u8>, i: int)
    requires
        0 <= i,
    ensures
        forall|k: int|
            0 <= k < all_matches(h, w, i).len() ==> i <= #[trigger] all_matches(h, w, i)[k]
                && all_matches(h, w, i)[k] + w.len() <= h.len(),
    decreases h.len() - i,
{
    if w.len() == 0 || i + w.len() > h.len() {
    } else if occurs_at(h, w, i) {
        lemma_all_matches_bounds(h, w, i + w.len());
        let rest = all_matches(h, w, i + w.len());
        let all = seq![i] + rest;
        assert forall|k: int| 0 <= k < all.len() implies i <= #[trigger] all[k] && all[k] + w.len() <= h.len() by {
            if k > 0 {
                assert(all[k] == rest[k - 1]);
            }
        }
        assert(all_matches(h, w, i) == all);
    } else {
        lemma_all_matches_bounds(h, w, i + 1);
        assert(all_matches(h, w, i) == all_matches(h, w, i + 1));
    }
}

/// Byte offset of the first whole-word occurrence of `w` in `h`.
pub fn find_word_in(h: &[u8], w: &[u8]) -> (r: Option<usize>)
    ensures
        ({
            let m = whole_word_matches(h@, w@, 0);
            match r {
                Some(k) => m.len() > 0 && k == m[0],
                None => m.len() == 0,
            }
        }),
{
    let all = find_words_in(h, w);
    if all.len() > 0 {
        assert(offsets_view(all@)[0] == all@[0] as int);
        Some(all[0])
    } else {
        None
    }
}

/// Find byte offsets of all whole-word occurrences of `word` in `haystack`.
pub fn find_words(haystack: &str, word: &str) -> (r: Vec<usize>)
    ensures
        offsets_view(r@) == whole_word_matches(haystack.spec_bytes(), word.spec_bytes(), 0),
{
    find_words_in(haystack.as_bytes(), word.as_bytes())
}

/// Find the byte offset of the first whole-word occurrence of `word` in
/// `haystack`.
pub fn find_word(haystack: &str, word: &str) -> (r: Option<usize>)
    ensures
        ({
            let m = whole_word_matches(haystack.spec_bytes(), word.spec_bytes(), 0);
            match r {
                Some(k) => m.len() > 0 && k == m[0],
                None => m.len() == 0,
            }
        }),
{
    find_word_in(haystack.as_bytes(), word.as_bytes())
}

// ---------------------------------------------------------------------------
// SCIP coordinates

/// The 0-based line and byte column of byte `offset`: the newlines before it
/// are counted, and the column is its distance from the start of its line,
/// as an `i32`.
pub open spec fn spec_line_col(bs: Seq<u8>, offset: int) -> (int, i32) {
    let o = if offset < bs.len() { offset } else { bs.len() as int };
    let prefix = bs.subrange(0, o);
    (count_newlines(prefix) as int, (offset - last_line_start(prefix)) as i32)
}

/// The line number of `spec_line_col` fits an `i32`.
pub open spec fn line_fits(bs: Seq<u8>, offset: int) -> bool {
    spec_line_col(bs, offset).0 <= i32::MAX
}

proof fn lemma_count_newlines_prefix_mono(bs: Seq<u8>, i: int, j: int)
    requires
        0 <= i <= j <= bs.len(),
    ensures
        count_newlines(bs.subrange(0, i)) <= count_newlines(bs.subrange(0, j)),
    decreases j - i,
{
    if i < j {
        lemma_count_newlines_prefix_mono(bs, i, j - 1);
        assert(bs.subrange(0, j).drop_last() =~= bs.subrange(0, j - 1));
    }
}

/// Convert a byte offset to (line, byte-column), both 0-based.
pub fn byte_offset_to_line_col(text: &str, offset: usize) -> (r: (i32, i32))
    requires
        line_fits(text.spec_bytes(), offset as int),
    ensures
        r.0 as int == spec_line_col(text.spec_bytes(), offset as int).0,
        r.1 == spec_line_col(text.spec_bytes(), offset as int).1,
{
    let bytes = text.as_bytes();
    let ghost bs = bytes@;
    let end: usize = if offset < bytes.len() { offset } else { bytes.len() };
    let mut line: i32 = 0;
    let mut line_start: usize = 0;
    let mut i: usize = 0;
    while i < end
        invariant
            bytes@ == bs,
            bs == text.spec_bytes(),
            i <= end <= bs.len(),
            end as int == (if offset < bs.len() { offset as int } else { bs.len() as int }),
            line as int == count_newlines(bs.subrange(0, i as int)),
            line_start as int == last_line_start(bs.subrange(0, i as int)),
            count_newlines(bs.subrange(0, end as int)) <= i32::MAX,
        decreases end - i,
    {
        let ghost prev = bs.subrange(0, i as int);
        let ghost next = bs.subrange(0, (i + 1) as int);
        assert(next.drop_last() =~= prev);
        proof {
            lemma_count_newlines_prefix_mono(bs, (i + 1) as int, end as int);
        }
        if bytes[i] == NEWLINE {
            line = line + 1;
            line_start = i + 1;
        }
        i += 1;
    }
    proof {
        lemma_last_line_start_bounds(bs.subrange(0, end as int));
    }
    (line, (offset - line_start) as i32)
}

/// Convert a byte range to a SCIP occurrence range
/// `[startLine, startChar, endLine, endChar]` on a single line.
pub fn byte_range_to_scip(text: &str, start: usize, len: usize) -> (r: Vec<i32>)
    requires
        line_fits(text.spec_bytes(), start as int),
        i32::MIN <= spec_line_col(text.spec_bytes(), start as int).1 + (len as i32) <= i32::MAX,
    ensures
        ({
            let (l, c) = spec_line_col(text.spec_bytes(), start as int);
            r@ == seq![l as i32, c, l as i32, (c + (len as i32)) as i32]
        }),
{
    let (line, col) = byte_offset_to_line_col(text, start);
    let r = vec![line, col, line, col + len as i32];
    assert(r@ =~= seq![line, col, line, (col + (len as i32)) as i32]);
    r
}

/// Convert a byte span `start..end` to a SCIP occurrence range, which may
/// cross lines.
pub fn byte_span_to_scip(text: &str, start: usize, end: usize) -> (r: Vec<i32>)
    requires
        line_fits(text.spec_bytes(), start as int),
        line_fits(text.spec_bytes(), end as int),
    ensures
        ({
            let (l1, c1) = spec_line_col(text.spec_bytes(), start as int);
            let (l2, c2) = spec_line_col(text.spec_bytes(), end as int);
            r@ == seq![l1 as i32, c1, l2 as i32, c2]
        }),
{
    let (start_line, start_col) = byte_offset_to_line_col(text, start);
    let (end_line, end_col) = byte_offset_to_line_col(text, end);
    let r = vec![start_line, start_col, end_line, end_col];
    assert(r@ =~= seq![start_line, start_col, end_line, end_col]);
    r
}


// ---------------------------------------------------------------------------
// Variable references

/// Index of the first newline at or after byte `i`, or the length of `bs`.
pub open spec fn next_newline(bs: Seq<u8>, i: int) -> int
    decreases bs.len() - i,
{
    if i < 0 || i >= bs.len() {
        bs.len() as int
    } else if bs[i] == NEWLINE {
        i
    } else {
        next_newline(bs, i + 1)
    }
}

/// The name in `$(`/`${` that starts at byte `j` ends at the first closing
/// delimiter `close`, space, tab, comma or `$`, or at the end of the text.
pub open spec fn ref_name_end(bs: Seq<u8>, j: int, close: u8) -> int
    decreases bs.len() - j,
{
    if j < 0 || j >= bs.len() {
        bs.len() as int
    } else if bs[j] == close || bs[j] == SPACE || bs[j] == TAB || bs[j] == COMMA || bs[j] == DOLLAR {
        j
    } else {
        ref_name_end(bs, j + 1, close)
    }
}

/// The first byte at or after `q` that is not a UTF-8 continuation byte, or
/// the length of `bs`: the end of the character whose bytes run up to it.
pub open spec fn continuation_end(bs: Seq<u8>, q: int) -> int
    decreases bs.len() - q,
{
    if q < 0 || q >= bs.len() {
        bs.len() as int
    } else if is_continuation_byte(bs[q]) {
        continuation_end(bs, q + 1)
    } else {
        q
    }
}

pub proof fn lemma_next_newline_bounds(bs: Seq<u8>, i: int)
    requires
        0 <= i <= bs.len(),
    ensures
        i <= next_newline(bs, i) <= bs.len(),
        next_newline(bs, i) < bs.len() ==> bs[next_newline(bs, i)] == NEWLINE,
    decreases bs.len() - i,
{
    if i < bs.len() && bs[i] != NEWLINE {
        lemma_next_newline_bounds(bs, i + 1);
    }
}

pub proof fn lemma_ref_name_end_bounds(bs: Seq<u8>, j: int, close: u8)
    requires
        0 <= j <= bs.len(),
    ensures
        j <= ref_name_end(bs, j, close) <= bs.len(),
        ref_name_end(bs, j, close) < bs.len() ==> ({
            let c = bs[ref_name_end(bs, j, close)];
            c == close || c == SPACE || c == TAB || c == COMMA || c == DOLLAR
        }),
    decreases bs.len() - j,
{
    if j < bs.len() {
        let c = bs[j];
        if !(c == close || c == SPACE || c == TAB || c == COMMA || c == DOLLAR) {
            lemma_ref_name_end_bounds(bs, j + 1, close);
        }
    }
}

pub proof fn lemma_continuation_end_bounds(bs: Seq<u8>, q: int)
    requires
        0 <= q <= bs.len(),
    ensures
        q <= continuation_end(bs, q) <= bs.len(),
        continuation_end(bs, q) < bs.len() ==> !is_continuation_byte(bs[continuation_end(bs, q)]),
    decreases bs.len() - q,
{
    if q < bs.len() && is_continuation_byte(bs[q]) {
        lemma_continuation_end_bounds(bs, q + 1);
    }
}

/// The variable references found by scanning `bs` from byte `i`, as byte
/// ranges of their names, in source order. `at_line_start` says that `i`
/// starts a line and `in_recipe` that the current line is a recipe line.
///
/// `$(NAME...)` and `${NAME...}` give the name up to the closing delimiter,
/// a blank, a comma or a nested `$`, and scanning resumes right after the
/// opening delimiter so nested references are found too; `$X` gives the one
/// character `X`; `$$` is an escaped dollar. Outside recipe lines, `#`
/// starts a comment that runs to the end of the line.
pub open spec fn scan_refs(bs: Seq<u8>, i: int, at_line_start: bool, in_recipe: bool) -> Seq<(int, int)>
    decreases bs.len() - i,
{
    if i < 0 || i >= bs.len() {
        seq![]
    } else if bs[i] == NEWLINE {
        scan_refs(bs, i + 1, true, false)
    } else {
        let rec = if at_line_start { bs[i] == TAB } else { in_recipe };
        if bs[i] == HASH && !rec {
            proof {
                lemma_next_newline_bounds(bs, i + 1);
            }
            scan_refs(bs, next_newline(bs, i + 1), false, rec)
        } else if bs[i] != DOLLAR {
            scan_refs(bs, i + 1, false, rec)
        } else if i + 1 >= bs.len() {
            seq![]
        } else if bs[i + 1] == DOLLAR {
            scan_refs(bs, i + 2, false, rec)
        } else if bs[i + 1] == LPAREN || bs[i + 1] == LBRACE {
            let close = if bs[i + 1] == LPAREN { RPAREN } else { RBRACE };
            let e = ref_name_end(bs, i + 2, close);
            let rest = scan_refs(bs, i + 2, false, rec);
            if e > i + 2 {
                seq![(i + 2, e)] + rest
            } else {
                rest
            }
        } else {
            proof {
                lemma_continuation_end_bounds(bs, i + 2);
            }
            let e = continuation_end(bs, i + 2);
            seq![(i + 1, e)] + scan_refs(bs, e, false, rec)
        }
    }
}

/// The spans found by the scan lie within the text, each start before its end.
pub proof fn lemma_scan_refs_bounds(bs: Seq<u8>, i: int, at_line_start: bool, in_recipe: bool)
    requires
        0 <= i,
    ensures
        forall|k: int|
            0 <= k < scan_refs(bs, i, at_line_start, in_recipe).len() ==> 0 <= (
            #[trigger] scan_refs(bs, i, at_line_start, in_recipe)[k]).0 <= scan_refs(
                bs,
                i,
                at_line_start,
                in_recipe,
            )[k].1 <= bs.len(),
    decreases bs.len() - i,
{
    if i >= bs.len() {
    } else if bs[i] == NEWLINE {
        lemma_scan_refs_bounds(bs, i + 1, true, false);
        assert(scan_refs(bs, i, at_line_start, in_recipe) == scan_refs(bs, i + 1, true, false));
    } else {
        let rec = if at_line_start { bs[i] == TAB } else { in_recipe };
        let all = scan_refs(bs, i, at_line_start, in_recipe);
        if bs[i] == HASH && !rec {
            lemma_next_newline_bounds(bs, i + 1);
            lemma_scan_refs_bounds(bs, next_newline(bs, i + 1), false, rec);
            assert(all == scan_refs(bs, next_newline(bs, i + 1), false, rec));
        } else if bs[i] != DOLLAR {
            lemma_scan_refs_bounds(bs, i + 1, false, rec);
            assert(all == scan_refs(bs, i + 1, false, rec));
        } else if i + 1 >= bs.len() {
        } else if bs[i + 1] == DOLLAR {
            lemma_scan_refs_bounds(bs, i + 2, false, rec);
            assert(all == scan_refs(bs, i + 2, false, rec));
        } else if bs[i + 1] == LPAREN || bs[i + 1] == LBRACE {
            let close = if bs[i + 1] == LPAREN { RPAREN } else { RBRACE };
            let e = ref_name_end(bs, i + 2, close);
            lemma_ref_name_end_bounds(bs, i + 2, close);
            lemma_scan_refs_bounds(bs, i + 2, false, rec);
            let rest = scan_refs(bs, i + 2, false, rec);
            if e <= i + 2 {
                assert(all == rest);
            } else {
                assert forall|k: int| 0 <= k < all.len() implies 0 <= (#[trigger] all[k]).0 <= all[k].1 <= bs.len() by {
                    if k > 0 {
                        assert(all[k] == rest[k - 1]);
                    }
                }
            }
        } else {
            lemma_continuation_end_bounds(bs, i + 2);
            let e = continuation_end(bs, i + 2);
            lemma_scan_refs_bounds(bs, e, false, rec);
            let rest = scan_refs(bs, e, false, rec);
            assert forall|k: int| 0 <= k < all.len() implies 0 <= (#[trigger] all[k]).0 <= all[k].1 <= bs.len() by {
                if k > 0 {
                    assert(all[k] == rest[k - 1]);
                }
            }
        }
    }
}

/// The name `bs[s..e]` is a well-formed reference name: not empty, and
/// either right after a `$`, or right after `$(` or `${` and free of
/// blanks, commas, `$` and that reference's closing delimiter.
pub open spec fn well_formed_name(bs: Seq<u8>, s: int, e: int) -> bool {
    &&& 1 <= s < e <= bs.len()
    &&& bs[s - 1] == DOLLAR || (s >= 2 && bs[s - 2] == DOLLAR && (bs[s - 1] == LPAREN || bs[s - 1] == LBRACE) && forall|k: int|
        s <= k < e ==> {
            let c = #[trigger] bs[k];
            &&& c != SPACE && c != TAB && c != COMMA && c != DOLLAR
            &&& c != (if bs[s - 1] == LPAREN { RPAREN } else { RBRACE })
        })
}

proof fn lemma_ref_name_end_clean(bs: Seq<u8>, j: int, close: u8, k: int)
    requires
        0 <= j <= k < ref_name_end(bs, j, close),
    ensures
        k < bs.len(),
        bs[k] != close && bs[k] != SPACE && bs[k] != TAB && bs[k] != COMMA && bs[k] != DOLLAR,
    decreases k - j,
{
    if j < k {
        lemma_ref_name_end_clean(bs, j + 1, close, k);
    }
}

/// The references scanned from byte `i` come in source order, each start
/// after the one before, at or after `i`, with a well-formed name.
proof fn lemma_scan_refs_shape(bs: Seq<u8>, i: int, at_line_start: bool, in_recipe: bool)
    requires
        0 <= i,
    ensures
        forall|k: int|
            0 <= k < scan_refs(bs, i, at_line_start, in_recipe).len() ==> i + 1 <= (#[trigger] scan_refs(
                bs,
                i,
                at_line_start,
                in_recipe,
            )[k]).0 && well_formed_name(bs, scan_refs(bs, i, at_line_start, in_recipe)[k].0, scan_refs(bs, i, at_line_start, in_recipe)[k].1),
        forall|a: int, b: int|
            0 <= a < b < scan_refs(bs, i, at_line_start, in_recipe).len() ==> (#[trigger] scan_refs(
                bs,
                i,
                at_line_start,
                in_recipe,
            )[a]).0 < (#[trigger] scan_refs(bs, i, at_line_start, in_recipe)[b]).0,
    decreases bs.len() - i,
{
    let all = scan_refs(bs, i, at_line_start, in_recipe);
    if i >= bs.len() {
    } else if bs[i] == NEWLINE {
        lemma_scan_refs_shape(bs, i + 1, true, false);
        assert(all == scan_refs(bs, i + 1, true, false));
    } else {
        let rec = if at_line_start { bs[i] == TAB } else { in_recipe };
        if bs[i] == HASH && !rec {
            lemma_next_newline_bounds(bs, i + 1);
            lemma_scan_refs_shape(bs, next_newline(bs, i + 1), false, rec);
            assert(all == scan_refs(bs, next_newline(bs, i + 1), false, rec));
        } else if bs[i] != DOLLAR {
            lemma_scan_refs_shape(bs, i + 1, false, rec);
            assert(all == scan_refs(bs, i + 1, false, rec));
        } else if i + 1 >= bs.len() {
        } else if bs[i + 1] == DOLLAR {
            lemma_scan_refs_shape(bs, i + 2, false, rec);
            assert(all == scan_refs(bs, i + 2, false, rec));
        } else if bs[i + 1] == LPAREN || bs[i + 1] == LBRACE {
            let close = if bs[i + 1] == LPAREN { RPAREN } else { RBRACE };
            let e = ref_name_end(bs, i + 2, close);
            lemma_ref_name_end_bounds(bs, i + 2, close);
            lemma_scan_refs_shape(bs, i + 2, false, rec);
            let rest = scan_refs(bs, i + 2, false, rec);
            if e <= i + 2 {
                assert(all == rest);
            } else {
                assert(all == seq![(i + 2, e)] + rest);
                assert forall|k: int| i + 2 <= k < e implies {
                    let c = #[trigger] bs[k];
                    &&& c != SPACE && c != TAB && c != COMMA && c != DOLLAR
                    &&& c != (if bs[i + 1] == LPAREN { RPAREN } else { RBRACE })
                } by {
                    lemma_ref_name_end_clean(bs, i + 2, close, k);
                }
                assert(well_formed_name(bs, i + 2, e));
                assert forall|k: int| 0 <= k < all.len() implies i + 1 <= (#[trigger] all[k]).0 && well_formed_name(bs, all[k].0, all[k].1) by {
                    if k > 0 {
                        assert(all[k] == rest[k - 1]);
                    }
                }
                assert forall|a: int, b: int| 0 <= a < b < all.len() implies (#[trigger] all[a]).0 < (#[trigger] all[b]).0 by {
                    assert(all[b] == rest[b - 1]);
                    if a > 0 {
                        assert(all[a] == rest[a - 1]);
                    } else {
                        assert(rest[b - 1].0 >= i + 3);
                    }
                }
            }
        } else {
            lemma_continuation_end_bounds(bs, i + 2);
            let e = continuation_end(bs, i + 2);
            lemma_scan_refs_shape(bs, e, false, rec);
            let rest = scan_refs(bs, e, false, rec);
            assert(all == seq![(i + 1, e)] + rest);
            assert forall|k: int| 0 <= k < all.len() implies i + 1 <= (#[trigger] all[k]).0 && well_formed_name(bs, all[k].0, all[k].1) by {
                if k > 0 {
                    assert(all[k] == rest[k - 1]);
                }
            }
            assert forall|a: int, b: int| 0 <= a < b < all.len() implies (#[trigger] all[a]).0 < (#[trigger] all[b]).0 by {
                assert(all[b] == rest[b - 1]);
                if a > 0 {
                    assert(all[a] == rest[a - 1]);
                }
            }
        }
    }
}

/// The scan of a text finds the references in source order, each name
/// well formed: not empty, after `$`, or after `$(`/`${` and free of
/// blanks, commas, `$` and the closing delimiter.
pub proof fn lemma_variable_references_shape(bs: Seq<u8>)
    ensures
        forall|k: int|
            0 <= k < spec_variable_references(bs).len() ==> well_formed_name(
                bs,
                (#[trigger] spec_variable_references(bs)[k]).0,
                spec_variable_references(bs)[k].1,
            ),
        forall|a: int, b: int|
            0 <= a < b < spec_variable_references(bs).len() ==> (#[trigger] spec_variable_references(bs)[a]).0 < (
            #[trigger] spec_variable_references(bs)[b]).0,
{
    lemma_scan_refs_shape(bs, 0, true, false);
}

/// The variable references of a whole text.
pub open spec fn spec_variable_references(bs: Seq<u8>) -> Seq<(int, int)> {
    scan_refs(bs, 0, true, false)
}

fn next_newline_exec(bytes: &[u8], i: usize) -> (r: usize)
    requires
        i <= bytes@.len(),
    ensures
        r == next_newline(bytes@, i as int),
{
    let mut j = i;
    while j < bytes.len() && bytes[j] != NEWLINE
        invariant
            i <= j <= bytes@.len(),
            next_newline(bytes@, j as int) == next_newline(bytes@, i as int),
        decreases bytes@.len() - j,
    {
        j += 1;
    }
    j
}

fn is_name_delim(c: u8, close: u8) -> (r: bool)
    ensures
        r == (c == close || c == SPACE || c == TAB || c == COMMA || c == DOLLAR),
{
    c == close || c == SPACE || c == TAB || c == COMMA || c == DOLLAR
}

fn ref_name_end_exec(bytes: &[u8], j: usize, close: u8) -> (r: usize)
    requires
        j <= bytes@.len(),
    ensures
        r == ref_name_end(bytes@, j as int, close),
{
    let mut k = j;
    while k < bytes.len() && !is_name_delim(bytes[k], close)
        invariant
            j <= k <= bytes@.len(),
            ref_name_end(bytes@, k as int, close) == ref_name_end(bytes@, j as int, close),
        decreases bytes@.len() - k,
    {
        k += 1;
    }
    k
}

fn continuation_end_exec(bytes: &[u8], q: usize) -> (r: usize)
    requires
        q <= bytes@.len(),
    ensures
        r == continuation_end(bytes@, q as int),
{
    let mut e = q;
    while e < bytes.len() && 0x80 <= bytes[e] && bytes[e] <= 0xbf
        invariant
            q <= e <= bytes@.len(),
            continuation_end(bytes@, e as int) == continuation_end(bytes@, q as int),
        decreases bytes@.len() - e,
    {
        e += 1;
    }
    e
}

/// A variable reference found by [`scan_variable_references`].
pub struct VarRef<'a> {
    /// The referenced name (`MAKE` for `$(MAKE)`, `@` for `$@`, `wildcard`
    /// for `$(wildcard ...)`).
    pub name: &'a str,
    /// Byte offset of the name within the text.
    pub name_start: usize,
}

/// `refs` are the names at the byte ranges `spans` of `bs`.
pub open spec fn refs_at(refs: Seq<VarRef>, bs: Seq<u8>, spans: Seq<(int, int)>) -> bool {
    &&& refs.len() == spans.len()
    &&& forall|k: int|
        0 <= k < refs.len() ==> {
            &&& (#[trigger] refs[k]).name_start == spans[k].0
            &&& refs[k].name.spec_bytes() == bs.subrange(spans[k].0, spans[k].1)
        }
}

/// Scan the whole text once for variable references, in source order.
pub fn scan_variable_references(text: &str) -> (r: Vec<VarRef<'_>>)
    ensures
        refs_at(r@, text.spec_bytes(), spec_variable_references(text.spec_bytes())),
{
    let bytes = text.as_bytes();
    let ghost bs = bytes@;
    let ghost full = spec_variable_references(bs);
    let ghost mut done: Seq<(int, int)> = seq![];
    let mut out: Vec<VarRef> = Vec::new();
    let mut i: usize = 0;
    let mut at_line_start = true;
    let mut in_recipe = false;
    while i < bytes.len()
        invariant
            bytes@ == bs,
            bs == text.spec_bytes(),
            valid_utf8(bs),
            i <= bs.len(),
            full == spec_variable_references(bs),
            done + scan_refs(bs, i as int, at_line_start, in_recipe) == full,
            refs_at(out@, bs, done),
        decreases bs.len() - i,
    {
        let ghost prev_done = done;
        let ghost step = scan_refs(bs, i as int, at_line_start, in_recipe);
        let b = bytes[i];
        if b == NEWLINE {
            at_line_start = true;
            in_recipe = false;
            i += 1;
            continue;
        }
        if at_line_start {
            in_recipe = b == TAB;
            at_line_start = false;
        }
        if b == HASH && !in_recipe {
            proof {
                lemma_next_newline_bounds(bs, i + 1);
            }
            i = next_newline_exec(bytes, i + 1);
            continue;
        }
        if b != DOLLAR {
            i += 1;
            continue;
        }
        if i + 1 >= bytes.len() {
            i = bytes.len();
            continue;
        }
        let open = bytes[i + 1];
        if open == DOLLAR {
            i += 2;
            continue;
        }
        proof {
            lemma_boundary_at_ascii(bs, i as int);
            lemma_boundary_after_ascii(bs, i as int);
        }
        if open == LPAREN || open == LBRACE {
            let close = if open == LPAREN { RPAREN } else { RBRACE };
            let name_start = i + 2;
            let j = ref_name_end_exec(bytes, name_start, close);
            proof {
                lemma_boundary_at_ascii(bs, i + 1);
                lemma_boundary_after_ascii(bs, i + 1);
                lemma_ref_name_end_bounds(bs, name_start as int, close);
                if j < bs.len() {
                    lemma_boundary_at_ascii(bs, j as int);
                } else {
                    is_char_boundary_start_end_of_seq(bs);
                }
            }
            let ghost rest = scan_refs(bs, name_start as int, false, in_recipe);
            if j > name_start {
                let name = substr(text, name_start, j);
                out.push(VarRef { name, name_start });
                proof {
                    done = done + seq![(name_start as int, j as int)];
                    assert(step == seq![(name_start as int, j as int)] + rest);
                    assert(prev_done + step =~= done + rest);
                }
            } else {
                assert(step == rest);
            }
            i = name_start;
        } else {
            proof {
                lemma_continuation_end_bounds(bs, i + 2);
            }
            let e = continuation_end_exec(bytes, i + 2);
            proof {
                if e < bs.len() {
                    is_char_boundary_iff_not_is_continuation_byte(bs, e as int);
                } else {
                    is_char_boundary_start_end_of_seq(bs);
                }
            }
            let ghost rest = scan_refs(bs, e as int, false, in_recipe);
            let name = substr(text, i + 1, e);
            out.push(VarRef { name, name_start: i + 1 });
            proof {
                done = done + seq![((i + 1) as int, e as int)];
                assert(step == seq![((i + 1) as int, e as int)] + rest);
                assert(prev_done + step =~= done + rest);
            }
            i = e;
        }
    }
    proof {
        assert(done + seq![] =~= done);
    }
    out
}


// ---------------------------------------------------------------------------
// Symbols

/// The scheme of the symbols of this index.
pub const SCHEME: &'static str = "scip-makefile";

/// Characters that SCIP writes unescaped in a descriptor name.
pub open spec fn simple_name_char(c: char) -> bool {
    ||| c == '_' || c == '+' || c == '-' || c == '$'
    ||| ('0' <= c <= '9') || ('A' <= c <= 'Z') || ('a' <= c <= 'z')
}

/// `s` with every backtick doubled.
pub open spec fn double_backticks(s: Seq<char>) -> Seq<char>
    decreases s.len(),
{
    if s.len() == 0 {
        seq![]
    } else {
        (if s[0] == '`' { seq!['`', '`'] } else { seq![s[0]] }) + double_backticks(s.drop_first())
    }
}

/// A descriptor name as SCIP writes it: unchanged when every character is
/// simple, else between backticks with inner backticks doubled.
pub open spec fn escape_name(name: Seq<char>) -> Seq<char> {
    if forall|i: int| 0 <= i < name.len() ==> simple_name_char(#[trigger] name[i]) {
        name
    } else {
        seq!['`'] + double_backticks(name) + seq!['`']
    }
}

/// The SCIP string of the global symbol with scheme `scheme`, an empty
/// package and the single descriptor `name`, a namespace (`name/`) or a
/// term (`name.`).
pub open spec fn global_symbol(scheme: Seq<char>, name: Seq<char>, namespace: bool) -> Seq<char> {
    scheme + seq![' ', '.', ' ', '.', ' ', '.', ' '] + escape_name(name) + (if namespace {
        seq!['/']
    } else {
        seq!['.']
    })
}

/// `scip::symbol::format_symbol` on a symbol with scheme `scheme`, a default
/// (empty) package and one descriptor named `name` whose suffix is
/// `Namespace` when `namespace` holds and `Term` otherwise. Its source joins
/// with spaces the scheme, `.` for each empty package field, and the
/// descriptor: the name escaped as `escape_name` says, then `/` or `.`.
#[verifier::external_body]
fn format_symbol(scheme: &str, name: &str, namespace: bool) -> (s: String)
    ensures
        s@ == global_symbol(scheme@, name@, namespace),
{
    let suffix = if namespace {
        scip::types::descriptor::Suffix::Namespace
    } else {
        scip::types::descriptor::Suffix::Term
    };
    scip::symbol::format_symbol(scip::types::Symbol {
        scheme: scheme.to_string(),
        package: Some(scip::types::Package::default()).into(),
        descriptors: vec![scip::types::Descriptor { name: name.to_string(), suffix: suffix.into(), ..Default::default() }],
        ..Default::default()
    })
}

/// The symbol of the target `name`.
pub open spec fn spec_target_symbol(name: Seq<char>) -> Seq<char> {
    global_symbol(SCHEME@, name, true)
}

/// The symbol of the variable `name`.
pub open spec fn spec_variable_symbol(name: Seq<char>) -> Seq<char> {
    global_symbol(SCHEME@, name, false)
}

/// Build the SCIP symbol string for a target.
pub fn target_symbol(name: &str) -> (s: String)
    ensures
        s@ == spec_target_symbol(name@),
{
    format_symbol(SCHEME, name, true)
}

/// Build the SCIP symbol string for a variable.
pub fn variable_symbol(name: &str) -> (s: String)
    ensures
        s@ == spec_variable_symbol(name@),
{
    format_symbol(SCHEME, name, false)
}


// ---------------------------------------------------------------------------
// Raw occurrences

pub const COLON: u8 = 0x3a;

/// How an occurrence reads, for syntax highlighting.
#[derive(Clone, Copy, Debug, PartialEq, Eq, Structural)]
pub enum SyntaxKind {
    IdentifierFunctionDefinition,
    IdentifierFunction,
    IdentifierMutableGlobal,
}

/// A single occurrence of a symbol, before conversion to SCIP coordinates.
pub struct RawOccurrence {
    pub symbol: String,
    /// Byte offset of the start of the name.
    pub start: usize,
    /// Byte length of the name.
    pub len: usize,
    pub is_definition: bool,
    pub syntax_kind: SyntaxKind,
}

pub struct RawOccurrenceView {
    pub symbol: Seq<char>,
    pub start: int,
    pub len: int,
    pub is_definition: bool,
    pub syntax_kind: SyntaxKind,
}

impl View for RawOccurrence {
    type V = RawOccurrenceView;

    open spec fn view(&self) -> RawOccurrenceView {
        RawOccurrenceView {
            symbol: self.symbol@,
            start: self.start as int,
            len: self.len as int,
            is_definition: self.is_definition,
            syntax_kind: self.syntax_kind,
        }
    }
}

pub open spec fn raw_view(v: Seq<RawOccurrence>) -> Seq<RawOccurrenceView> {
    v.map_values(|o: RawOccurrence| o@)
}

/// Every occurrence ends within the first `limit` bytes.
pub open spec fn occurrences_within(v: Seq<RawOccurrence>, limit: int) -> bool {
    forall|k: int| 0 <= k < v.len() ==> (#[trigger] v[k]).start + v[k].len <= limit
}

/// The occurrence of the symbol `symbol`, written `name`, at byte `start`.
pub open spec fn raw_occ(
    symbol: Seq<char>,
    start: int,
    name: Seq<char>,
    is_definition: bool,
    syntax_kind: SyntaxKind,
) -> RawOccurrenceView {
    RawOccurrenceView { symbol, start, len: utf8(name).len() as int, is_definition, syntax_kind }
}

/// Index of the first byte `b` of `s` at or after `i`.
pub open spec fn first_byte_from(s: Seq<u8>, b: u8, i: int) -> Option<int>
    decreases s.len() - i,
{
    if i < 0 || i >= s.len() {
        None
    } else if s[i] == b {
        Some(i)
    } else {
        first_byte_from(s, b, i + 1)
    }
}

/// The range lies within a text of `len` bytes.
pub open spec fn range_within(r: TextRange, len: int) -> bool {
    r.start <= r.end <= len
}

/// Definitions of the targets `ts` at their first whole-word occurrence in
/// `section`, which starts at byte `base` of the text.
pub open spec fn target_defs(section: Seq<u8>, base: int, ts: Seq<Seq<char>>) -> Seq<RawOccurrenceView>
    decreases ts.len(),
{
    if ts.len() == 0 {
        seq![]
    } else {
        let t = ts.last();
        let m = whole_word_matches(section, utf8(t), 0);
        target_defs(section, base, ts.drop_last()) + if m.len() > 0 {
            seq![raw_occ(spec_target_symbol(t), base + m[0], t, true, SyntaxKind::IdentifierFunctionDefinition)]
        } else {
            seq![]
        }
    }
}

/// References to the prerequisites `ps` at each of their whole-word
/// occurrences in `section`, which starts at byte `base` of the text.
pub open spec fn prereq_refs(section: Seq<u8>, base: int, ps: Seq<Seq<char>>) -> Seq<RawOccurrenceView>
    decreases ps.len(),
{
    if ps.len() == 0 {
        seq![]
    } else {
        let p = ps.last();
        prereq_refs(section, base, ps.drop_last()) + whole_word_matches(section, utf8(p), 0).map_values(
            |k: int| raw_occ(spec_target_symbol(p), base + k, p, false, SyntaxKind::IdentifierFunction),
        )
    }
}

/// The target occurrences of one rule: its targets before the first `:` of
/// its text, its prerequisites after it on the same line.
pub open spec fn rule_occurrences(bs: Seq<u8>, r: RuleView) -> Seq<RawOccurrenceView> {
    if !range_within(r.range, bs.len() as int) {
        seq![]
    } else {
        let rt = bs.subrange(r.range.start as int, r.range.end as int);
        match first_byte_from(rt, COLON, 0) {
            None => seq![],
            Some(c) => {
                let after = rt.subrange(c + 1, rt.len() as int);
                let pe = match first_byte_from(after, NEWLINE, 0) {
                    Some(e) => e,
                    None => after.len() as int,
                };
                target_defs(rt.subrange(0, c), r.range.start as int, r.targets) + prereq_refs(
                    after.subrange(0, pe),
                    r.range.start + c + 1,
                    r.prerequisites,
                )
            },
        }
    }
}

/// The target occurrences of all rules, in order.
pub open spec fn target_occurrences(bs: Seq<u8>, rules: Seq<RuleView>) -> Seq<RawOccurrenceView>
    decreases rules.len(),
{
    if rules.len() == 0 {
        seq![]
    } else {
        target_occurrences(bs, rules.drop_last()) + rule_occurrences(bs, rules.last())
    }
}

pub fn first_byte_exec(s: &[u8], b: u8) -> (r: Option<usize>)
    ensures
        match r {
            Some(k) => first_byte_from(s@, b, 0) == Some(k as int),
            None => first_byte_from(s@, b, 0) is None,
        },
{
    let mut i: usize = 0;
    while i < s.len()
        invariant
            i <= s@.len(),
            first_byte_from(s@, b, 0) == first_byte_from(s@, b, i as int),
        decreases s@.len() - i,
    {
        if s[i] == b {
            return Some(i);
        }
        i += 1;
    }
    None
}

pub proof fn lemma_first_byte_bounds(s: Seq<u8>, b: u8, i: int)
    requires
        0 <= i,
    ensures
        first_byte_from(s, b, i) matches Some(k) ==> i <= k < s.len() && s[k] == b,
    decreases s.len() - i,
{
    if i < s.len() && s[i] != b {
        lemma_first_byte_bounds(s, b, i + 1);
    }
}

pub proof fn lemma_whole_word_matches_bounds(h: Seq<u8>, w: Seq<u8>, i: int)
    requires
        0 <= i,
    ensures
        forall|k: int|
            0 <= k < whole_word_matches(h, w, i).len() ==> i <= #[trigger] whole_word_matches(h, w, i)[k]
                && whole_word_matches(h, w, i)[k] + w.len() <= h.len(),
    decreases h.len() - i,
{
    if w.len() == 0 || i + w.len() > h.len() {
    } else if occurs_at(h, w, i) {
        lemma_whole_word_matches_bounds(h, w, i + w.len());
        let rest = whole_word_matches(h, w, i + w.len());
        if whole_word_at(h, w, i) {
            let all = seq![i] + rest;
            assert forall|k: int| 0 <= k < all.len() implies i <= #[trigger] all[k] && all[k] + w.len() <= h.len() by {
                if k > 0 {
                    assert(all[k] == rest[k - 1]);
                }
            }
            assert(whole_word_matches(h, w, i) == all);
        } else {
            assert(whole_word_matches(h, w, i) == rest);
        }
    } else {
        lemma_whole_word_matches_bounds(h, w, i + 1);
        assert(whole_word_matches(h, w, i) == whole_word_matches(h, w, i + 1));
    }
}

/// Definition occurrences of `targets` in `section`, appended to `out`.
fn push_target_defs(out: &mut Vec<RawOccurrence>, section: &[u8], base: usize, targets: &Vec<String>, Ghost(limit): Ghost<int>)
    requires
        base + section@.len() <= limit <= usize::MAX,
        occurrences_within(old(out)@, limit),
    ensures
        occurrences_within(final(out)@, limit),
        raw_view(final(out)@) == raw_view(old(out)@) + target_defs(section@, base as int, crate::strs::strings_view(targets@)),
{
    let ghost ts = crate::strs::strings_view(targets@);
    let ghost start = raw_view(out@);
    let mut i: usize = 0;
    while i < targets.len()
        invariant
            i <= targets@.len(),
            ts == crate::strs::strings_view(targets@),
            base + section@.len() <= limit <= usize::MAX,
            occurrences_within(out@, limit),
            raw_view(out@) == start + target_defs(section@, base as int, ts.subrange(0, i as int)),
        decreases targets@.len() - i,
    {
        let t = &targets[i];
        let ghost prev = raw_view(out@);
        assert(ts.subrange(0, i + 1).drop_last() =~= ts.subrange(0, i as int));
        assert(ts.subrange(0, i + 1).last() == t@);
        let found = find_word_in(section, t.as_str().as_bytes());
        proof {
            lemma_whole_word_matches_bounds(section@, utf8(t@), 0);
        }
        if let Some(idx) = found {
            let occ = RawOccurrence {
                symbol: target_symbol(t.as_str()),
                start: base + idx,
                len: t.as_str().len(),
                is_definition: true,
                syntax_kind: SyntaxKind::IdentifierFunctionDefinition,
            };
            out.push(occ);
            assert(raw_view(out@) =~= prev + seq![occ@]);
        } else {
            assert(prev + seq![] =~= prev);
        }
        i += 1;
    }
    assert(ts.subrange(0, i as int) =~= ts);
}

/// Reference occurrences of `prereqs` in `section`, appended to `out`.
fn push_prereq_refs(out: &mut Vec<RawOccurrence>, section: &[u8], base: usize, prereqs: &Vec<String>, Ghost(limit): Ghost<int>)
    requires
        base + section@.len() <= limit <= usize::MAX,
        occurrences_within(old(out)@, limit),
    ensures
        occurrences_within(final(out)@, limit),
        raw_view(final(out)@) == raw_view(old(out)@) + prereq_refs(section@, base as int, crate::strs::strings_view(prereqs@)),
{
    let ghost ps = crate::strs::strings_view(prereqs@);
    let ghost start = raw_view(out@);
    let mut i: usize = 0;
    while i < prereqs.len()
        invariant
            i <= prereqs@.len(),
            ps == crate::strs::strings_view(prereqs@),
            base + section@.len() <= limit <= usize::MAX,
            occurrences_within(out@, limit),
            raw_view(out@) == start + prereq_refs(section@, base as int, ps.subrange(0, i as int)),
        decreases prereqs@.len() - i,
    {
        let p = &prereqs[i];
        let ghost prev = raw_view(out@);
        assert(ps.subrange(0, i + 1).drop_last() =~= ps.subrange(0, i as int));
        assert(ps.subrange(0, i + 1).last() == p@);
        let found = find_words_in(section, p.as_str().as_bytes());
        let ghost m = whole_word_matches(section@, utf8(p@), 0);
        proof {
            lemma_whole_word_matches_bounds(section@, utf8(p@), 0);
        }
        let mut k: usize = 0;
        while k < found.len()
            invariant
                k <= found@.len(),
                offsets_view(found@) == m,
                forall|j: int| 0 <= j < m.len() ==> 0 <= #[trigger] m[j] && m[j] + utf8(p@).len() <= section@.len(),
                base + section@.len() <= limit <= usize::MAX,
                occurrences_within(out@, limit),
                raw_view(out@) == prev + m.subrange(0, k as int).map_values(
                    |x: int| raw_occ(spec_target_symbol(p@), base + x, p@, false, SyntaxKind::IdentifierFunction),
                ),
            decreases found@.len() - k,
        {
            let ghost before = raw_view(out@);
            assert(offsets_view(found@)[k as int] == found@[k as int] as int);
            let occ = RawOccurrence {
                symbol: target_symbol(p.as_str()),
                start: base + found[k],
                len: p.as_str().len(),
                is_definition: false,
                syntax_kind: SyntaxKind::IdentifierFunction,
            };
            out.push(occ);
            assert(raw_view(out@) =~= before + seq![occ@]);
            assert(m.subrange(0, k + 1).map_values(
                |x: int| raw_occ(spec_target_symbol(p@), base + x, p@, false, SyntaxKind::IdentifierFunction),
            ) =~= m.subrange(0, k as int).map_values(
                |x: int| raw_occ(spec_target_symbol(p@), base + x, p@, false, SyntaxKind::IdentifierFunction),
            ) + seq![raw_occ(spec_target_symbol(p@), base + m[k as int], p@, false, SyntaxKind::IdentifierFunction)]);
            assert(raw_view(out@) =~= prev + m.subrange(0, k + 1).map_values(
                |x: int| raw_occ(spec_target_symbol(p@), base + x, p@, false, SyntaxKind::IdentifierFunction),
            ));
            k += 1;
        }
        assert(m.subrange(0, k as int) =~= m);
        i += 1;
    }
    assert(ps.subrange(0, i as int) =~= ps);
}

/// Collect target definitions and prerequisite references.
pub fn collect_targets(makefile: &Makefile, text: &str) -> (r: Vec<RawOccurrence>)
    ensures
        occurrences_within(r@, text.spec_bytes().len() as int),
        raw_view(r@) == target_occurrences(text.spec_bytes(), rules_view(makefile.rules@)),
{
    let bytes = text.as_bytes();
    let ghost rules = rules_view(makefile.rules@);
    let mut out: Vec<RawOccurrence> = Vec::new();
    let mut i: usize = 0;
    while i < makefile.rules.len()
        invariant
            i <= makefile.rules@.len(),
            bytes@ == text.spec_bytes(),
            rules == rules_view(makefile.rules@),
            occurrences_within(out@, bytes@.len() as int),
            raw_view(out@) == target_occurrences(bytes@, rules.subrange(0, i as int)),
        decreases makefile.rules@.len() - i,
    {
        let rule = &makefile.rules[i];
        assert(rules.subrange(0, i + 1).drop_last() =~= rules.subrange(0, i as int));
        assert(rules.subrange(0, i + 1).last() == rule@);
        let ghost prev = raw_view(out@);
        let rs = rule.range.start as usize;
        let re = rule.range.end as usize;
        if rs <= re && re <= bytes.len() {
            let rule_text = vstd::slice::slice_subrange(bytes, rs, re);
            if let Some(colon) = first_byte_exec(rule_text, COLON) {
                proof {
                    lemma_first_byte_bounds(rule_text@, COLON, 0);
                }
                let head = vstd::slice::slice_subrange(rule_text, 0, colon);
                push_target_defs(&mut out, head, rs, &rule.targets, Ghost(bytes@.len() as int));
                let after = vstd::slice::slice_subrange(rule_text, colon + 1, rule_text.len());
                let pe = match first_byte_exec(after, NEWLINE) {
                    Some(e) => e,
                    None => after.len(),
                };
                proof {
                    lemma_first_byte_bounds(after@, NEWLINE, 0);
                }
                let section = vstd::slice::slice_subrange(after, 0, pe);
                push_prereq_refs(&mut out, section, rs + colon + 1, &rule.prerequisites, Ghost(bytes@.len() as int));
                assert(raw_view(out@) =~= prev + rule_occurrences(bytes@, rule@));
            } else {
                assert(raw_view(out@) =~= prev + rule_occurrences(bytes@, rule@));
            }
        } else {
            assert(raw_view(out@) =~= prev + rule_occurrences(bytes@, rule@));
        }
        i += 1;
    }
    assert(rules.subrange(0, i as int) =~= rules);
    out
}


/// The definition occurrence of a variable: its name at its first whole-word
/// occurrence in the definition's text.
pub open spec fn variable_def_occurrence(bs: Seq<u8>, v: VariableDefinitionView) -> Seq<RawOccurrenceView> {
    match v.name {
        None => seq![],
        Some(n) => if !range_within(v.range, bs.len() as int) {
            seq![]
        } else {
            let m = whole_word_matches(bs.subrange(v.range.start as int, v.range.end as int), utf8(n), 0);
            if m.len() > 0 {
                seq![raw_occ(spec_variable_symbol(n), v.range.start + m[0], n, true, SyntaxKind::IdentifierMutableGlobal)]
            } else {
                seq![]
            }
        },
    }
}

/// The definition occurrences of all variable definitions, in order.
pub open spec fn variable_def_occurrences(bs: Seq<u8>, vars: Seq<VariableDefinitionView>) -> Seq<RawOccurrenceView>
    decreases vars.len(),
{
    if vars.len() == 0 {
        seq![]
    } else {
        variable_def_occurrences(bs, vars.drop_last()) + variable_def_occurrence(bs, vars.last())
    }
}

/// Collect variable definitions (the `NAME` in `NAME = value`).
pub fn collect_variable_definitions(makefile: &Makefile, text: &str) -> (r: Vec<RawOccurrence>)
    ensures
        occurrences_within(r@, text.spec_bytes().len() as int),
        raw_view(r@) == variable_def_occurrences(text.spec_bytes(), variables_view(makefile.variables@)),
{
    let bytes = text.as_bytes();
    let ghost vars = variables_view(makefile.variables@);
    let mut out: Vec<RawOccurrence> = Vec::new();
    let mut i: usize = 0;
    while i < makefile.variables.len()
        invariant
            i <= makefile.variables@.len(),
            bytes@ == text.spec_bytes(),
            vars == variables_view(makefile.variables@),
            occurrences_within(out@, bytes@.len() as int),
            raw_view(out@) == variable_def_occurrences(bytes@, vars.subrange(0, i as int)),
        decreases makefile.variables@.len() - i,
    {
        let var = &makefile.variables[i];
        assert(vars.subrange(0, i + 1).drop_last() =~= vars.subrange(0, i as int));
        assert(vars.subrange(0, i + 1).last() == var@);
        let ghost prev = raw_view(out@);
        if let Some(name) = &var.name {
            let vs = var.range.start as usize;
            let ve = var.range.end as usize;
            if vs <= ve && ve <= bytes.len() {
                let var_text = vstd::slice::slice_subrange(bytes, vs, ve);
                proof {
                    lemma_whole_word_matches_bounds(var_text@, utf8(name@), 0);
                }
                if let Some(idx) = find_word_in(var_text, name.as_str().as_bytes()) {
                    let occ = RawOccurrence {
                        symbol: variable_symbol(name.as_str()),
                        start: vs + idx,
                        len: name.as_str().len(),
                        is_definition: true,
                        syntax_kind: SyntaxKind::IdentifierMutableGlobal,
                    };
                    out.push(occ);
                }
            }
        }
        assert(raw_view(out@) =~= prev + variable_def_occurrence(bytes@, var@));
        i += 1;
    }
    assert(vars.subrange(0, i as int) =~= vars);
    out
}

/// The name at a byte range of the text.
pub open spec fn span_name(bs: Seq<u8>, span: (int, int)) -> Seq<char> {
    decode_utf8(bs.subrange(span.0, span.1))
}

/// Documentation for a built-in or automatic variable name: the tables
/// document the automatic variables.
pub open spec fn spec_builtin_variable_doc(name: Seq<char>) -> Option<Seq<char>> {
    match spec_automatic_doc(name) {
        Some(d) => Some(d),
        None => lookup_doc(spec_builtin_variable_docs(), name),
    }
}

/// Documentation for a built-in or automatic variable name, if known.
pub fn builtin_variable_doc(name: &str) -> (r: Option<String>)
    ensures
        match r {
            Some(d) => spec_builtin_variable_doc(name@) == Some(d@),
            None => spec_builtin_variable_doc(name@) is None,
        },
{
    match find_automatic_variable(name) {
        Some(d) => Some(d.to_owned()),
        None => match find_builtin_variable(name) {
            Some(d) => Some(d.to_owned()),
            None => None,
        },
    }
}

/// A reference is indexed when its name is defined in the file or is a
/// documented built-in.
pub open spec fn reference_indexed(user: Seq<Seq<char>>, n: Seq<char>) -> bool {
    user.contains(n) || spec_builtin_variable_doc(n) is Some
}

/// The occurrences of the references at `spans` whose names are indexed.
pub open spec fn reference_occurrences(bs: Seq<u8>, spans: Seq<(int, int)>, user: Seq<Seq<char>>) -> Seq<RawOccurrenceView>
    decreases spans.len(),
{
    if spans.len() == 0 {
        seq![]
    } else {
        let n = span_name(bs, spans.last());
        reference_occurrences(bs, spans.drop_last(), user) + if reference_indexed(user, n) {
            seq![raw_occ(spec_variable_symbol(n), spans.last().0, n, false, SyntaxKind::IdentifierMutableGlobal)]
        } else {
            seq![]
        }
    }
}

/// A documented built-in reference: symbol, name and documentation.
pub type DocEntryView = (Seq<char>, (Seq<char>, Seq<char>));

/// For each reference at `spans` to a built-in that the file does not
/// define, its symbol, name and documentation, in order.
pub open spec fn reference_docs(bs: Seq<u8>, spans: Seq<(int, int)>, user: Seq<Seq<char>>) -> Seq<DocEntryView>
    decreases spans.len(),
{
    if spans.len() == 0 {
        seq![]
    } else {
        let n = span_name(bs, spans.last());
        reference_docs(bs, spans.drop_last(), user) + if !user.contains(n) && spec_builtin_variable_doc(n) is Some {
            seq![(spec_variable_symbol(n), (n, spec_builtin_variable_doc(n).unwrap()))]
        } else {
            seq![]
        }
    }
}

pub open spec fn doc_entries_view(v: Seq<(String, (String, String))>) -> Seq<DocEntryView> {
    v.map_values(|e: (String, (String, String))| (e.0@, (e.1.0@, e.1.1@)))
}

/// Collect occurrences for every variable reference in the text whose name
/// is defined in the file (`user_defined`) or is a documented built-in; the
/// built-ins that the file does not define are returned with their
/// documentation too. Other names are skipped.
pub fn collect_variable_references(text: &str, user_defined: &Vec<String>) -> (r: (Vec<RawOccurrence>, Vec<(String, (String, String))>))
    ensures
        occurrences_within(r.0@, text.spec_bytes().len() as int),
        raw_view(r.0@) == reference_occurrences(
            text.spec_bytes(),
            spec_variable_references(text.spec_bytes()),
            strings_view(user_defined@),
        ),
        doc_entries_view(r.1@) == reference_docs(
            text.spec_bytes(),
            spec_variable_references(text.spec_bytes()),
            strings_view(user_defined@),
        ),
{
    let ghost bs = text.spec_bytes();
    let ghost user = strings_view(user_defined@);
    let refs = scan_variable_references(text);
    let ghost spans = spec_variable_references(bs);
    proof {
        lemma_scan_refs_bounds(bs, 0, true, false);
    }
    let mut out: Vec<RawOccurrence> = Vec::new();
    let mut docs: Vec<(String, (String, String))> = Vec::new();
    let mut i: usize = 0;
    while i < refs.len()
        invariant
            i <= refs@.len(),
            bs == text.spec_bytes(),
            user == strings_view(user_defined@),
            spans == spec_variable_references(bs),
            refs_at(refs@, bs, spans),
            occurrences_within(out@, bs.len() as int),
            forall|k: int| 0 <= k < spans.len() ==> 0 <= (#[trigger] spans[k]).0 <= spans[k].1 <= bs.len(),
            raw_view(out@) == reference_occurrences(bs, spans.subrange(0, i as int), user),
            doc_entries_view(docs@) == reference_docs(bs, spans.subrange(0, i as int), user),
        decreases refs@.len() - i,
    {
        let r = &refs[i];
        let ghost prev = raw_view(out@);
        let ghost prev_docs = doc_entries_view(docs@);
        assert(spans.subrange(0, i + 1).drop_last() =~= spans.subrange(0, i as int));
        assert(spans.subrange(0, i + 1).last() == spans[i as int]);
        proof {
            assert(r.name.spec_bytes() == bs.subrange(spans[i as int].0, spans[i as int].1));
            assert(decode_utf8(encode_utf8(r.name@)) == r.name@);
            assert(span_name(bs, spans[i as int]) == r.name@);
        }
        let symbol = variable_symbol(r.name);
        let defined = contains_string(user_defined, r.name);
        let mut keep = defined;
        if !defined {
            if let Some(doc) = builtin_variable_doc(r.name) {
                let entry = (symbol.clone(), (r.name.to_owned(), doc));
                docs.push(entry);
                assert(doc_entries_view(docs@) =~= prev_docs + seq![(entry.0@, (entry.1.0@, entry.1.1@))]);
                keep = true;
            }
        }
        if keep {
            let occ = RawOccurrence {
                symbol,
                start: r.name_start,
                len: r.name.as_bytes().len(),
                is_definition: false,
                syntax_kind: SyntaxKind::IdentifierMutableGlobal,
            };
            out.push(occ);
            assert(refs@[i as int].name_start == spans[i as int].0);
            assert(occ@.symbol == spec_variable_symbol(r.name@));
            assert(occ@.len == utf8(r.name@).len());
            assert(occ@ == raw_occ(spec_variable_symbol(r.name@), spans[i as int].0, r.name@, false, SyntaxKind::IdentifierMutableGlobal));
            assert(raw_view(out@) =~= prev + seq![occ@]);
        }
        assert(raw_view(out@) =~= prev + if reference_indexed(user, r.name@) {
            seq![raw_occ(spec_variable_symbol(r.name@), spans[i as int].0, r.name@, false, SyntaxKind::IdentifierMutableGlobal)]
        } else {
            seq![]
        });
        assert(doc_entries_view(docs@) =~= prev_docs + if !user.contains(r.name@) && spec_builtin_variable_doc(r.name@) is Some {
            seq![(spec_variable_symbol(r.name@), (r.name@, spec_builtin_variable_doc(r.name@).unwrap()))]
        } else {
            seq![]
        });
        i += 1;
    }
    assert(spans.subrange(0, i as int) =~= spans);
    (out, docs)
}


// ---------------------------------------------------------------------------
// The SCIP document

/// Lexicographic order on integer sequences (the order of `Vec<i32>`).
pub open spec fn ints_lt(a: Seq<i32>, b: Seq<i32>) -> bool
    decreases a.len(),
{
    if a.len() == 0 {
        b.len() > 0
    } else if b.len() == 0 {
        false
    } else if a[0] != b[0] {
        a[0] < b[0]
    } else {
        ints_lt(a.drop_first(), b.drop_first())
    }
}

proof fn lemma_ints_lt_irreflexive(a: Seq<i32>)
    ensures
        !ints_lt(a, a),
    decreases a.len(),
{
    if a.len() > 0 {
        lemma_ints_lt_irreflexive(a.drop_first());
    }
}

proof fn lemma_ints_lt_transitive(a: Seq<i32>, b: Seq<i32>, c: Seq<i32>)
    requires
        ints_lt(a, b),
        ints_lt(b, c),
    ensures
        ints_lt(a, c),
    decreases a.len(),
{
    if a.len() > 0 && b.len() > 0 && c.len() > 0 && a[0] == b[0] && b[0] == c[0] {
        lemma_ints_lt_transitive(a.drop_first(), b.drop_first(), c.drop_first());
    }
}

proof fn lemma_ints_lt_total(a: Seq<i32>, b: Seq<i32>)
    ensures
        a == b || ints_lt(a, b) || ints_lt(b, a),
    decreases a.len(),
{
    if a.len() > 0 && b.len() > 0 && a[0] == b[0] {
        lemma_ints_lt_total(a.drop_first(), b.drop_first());
        if a.drop_first() == b.drop_first() {
            assert(a =~= seq![a[0]] + a.drop_first());
            assert(b =~= seq![b[0]] + b.drop_first());
        }
    } else if a.len() == 0 && b.len() == 0 {
        assert(a =~= b);
    }
}

proof fn lemma_ints_lt_order(a: Seq<i32>, b: Seq<i32>, c: Seq<i32>)
    ensures
        !ints_lt(a, a),
        ints_lt(a, b) && ints_lt(b, c) ==> ints_lt(a, c),
        ints_lt(a, b) ==> !ints_lt(b, a),
        a == b || ints_lt(a, b) || ints_lt(b, a),
{
    lemma_ints_lt_irreflexive(a);
    if ints_lt(a, b) && ints_lt(b, c) {
        lemma_ints_lt_transitive(a, b, c);
    }
    if ints_lt(a, b) && ints_lt(b, a) {
        lemma_ints_lt_transitive(a, b, a);
    }
    lemma_ints_lt_total(a, b);
}

fn ints_less(a: &Vec<i32>, b: &Vec<i32>) -> (r: bool)
    ensures
        r == ints_lt(a@, b@),
{
    let mut i: usize = 0;
    assert(a@.subrange(0, a@.len() as int) =~= a@);
    assert(b@.subrange(0, b@.len() as int) =~= b@);
    while i < a.len() && i < b.len() && a[i] == b[i]
        invariant
            i <= a@.len(),
            i <= b@.len(),
            ints_lt(a@, b@) == ints_lt(a@.subrange(i as int, a@.len() as int), b@.subrange(i as int, b@.len() as int)),
        decreases a@.len() - i,
    {
        assert(a@.subrange(i as int, a@.len() as int).drop_first() =~= a@.subrange(i + 1, a@.len() as int));
        assert(b@.subrange(i as int, b@.len() as int).drop_first() =~= b@.subrange(i + 1, b@.len() as int));
        i += 1;
    }
    if i == a.len() {
        i < b.len()
    } else if i == b.len() {
        false
    } else {
        a[i] < b[i]
    }
}

fn ints_eq(a: &Vec<i32>, b: &Vec<i32>) -> (r: bool)
    ensures
        r == (a@ == b@),
{
    if a.len() != b.len() {
        return false;
    }
    let mut i: usize = 0;
    while i < a.len()
        invariant
            a@.len() == b@.len(),
            i <= a@.len(),
            forall|j: int| 0 <= j < i ==> a@[j] == b@[j],
        decreases a@.len() - i,
    {
        if a[i] != b[i] {
            return false;
        }
        i += 1;
    }
    assert(a@ =~= b@);
    true
}

/// The sort key of an occurrence: its range, then its symbol.
pub struct OccurrenceKey {
    pub range: Vec<i32>,
    pub symbol: String,
}

impl View for OccurrenceKey {
    type V = (Seq<i32>, Seq<char>);

    open spec fn view(&self) -> (Seq<i32>, Seq<char>) {
        (self.range@, self.symbol@)
    }
}

impl OrderedKey for OccurrenceKey {
    open spec fn key_lt(a: (Seq<i32>, Seq<char>), b: (Seq<i32>, Seq<char>)) -> bool {
        ints_lt(a.0, b.0) || (a.0 == b.0 && str_lt(a.1, b.1))
    }

    proof fn lemma_key_order(a: (Seq<i32>, Seq<char>), b: (Seq<i32>, Seq<char>), c: (Seq<i32>, Seq<char>)) {
        lemma_ints_lt_order(a.0, b.0, c.0);
        lemma_str_lt_order(a.1, b.1, c.1);
    }

    fn less(&self, other: &Self) -> (r: bool) {
        ints_less(&self.range, &other.range) || (ints_eq(&self.range, &other.range) && str_less(
            self.symbol.as_str(),
            other.symbol.as_str(),
        ))
    }

    fn same(&self, other: &Self) -> (r: bool) {
        ints_eq(&self.range, &other.range) && str_eq(self.symbol.as_str(), other.symbol.as_str())
    }
}

/// Severity of a diagnostic.
#[derive(Clone, Copy, Debug, PartialEq, Eq, Structural)]
pub enum Severity {
    UnspecifiedSeverity,
    Error,
    Warning,
    Information,
    Hint,
}

/// A diagnostic carried by an occurrence.
pub struct Diagnostic {
    pub severity: Severity,
    pub code: String,
    pub message: String,
    pub source: String,
}

pub struct DiagnosticView {
    pub severity: Severity,
    pub code: Seq<char>,
    pub message: Seq<char>,
    pub source: Seq<char>,
}

impl View for Diagnostic {
    type V = DiagnosticView;

    open spec fn view(&self) -> DiagnosticView {
        DiagnosticView { severity: self.severity, code: self.code@, message: self.message@, source: self.source@ }
    }
}

/// The role bit of a definition occurrence.
pub const SYMBOL_ROLE_DEFINITION: i32 = 1;

/// An occurrence: a range with a symbol, or with diagnostics.
pub struct Occurrence {
    /// `[startLine, startChar, endLine, endChar]`, characters as UTF-8 bytes
    /// from the start of the line.
    pub range: Vec<i32>,
    pub symbol: String,
    pub symbol_roles: i32,
    pub syntax_kind: Option<SyntaxKind>,
    pub diagnostics: Vec<Diagnostic>,
}

pub struct OccurrenceView {
    pub range: Seq<i32>,
    pub symbol: Seq<char>,
    pub symbol_roles: i32,
    pub syntax_kind: Option<SyntaxKind>,
    pub diagnostics: Seq<DiagnosticView>,
}

impl View for Occurrence {
    type V = OccurrenceView;

    open spec fn view(&self) -> OccurrenceView {
        OccurrenceView {
            range: self.range@,
            symbol: self.symbol@,
            symbol_roles: self.symbol_roles,
            syntax_kind: self.syntax_kind,
            diagnostics: self.diagnostics@.map_values(|d: Diagnostic| d@),
        }
    }
}

/// The kind of a documented symbol.
#[derive(Clone, Copy, Debug, PartialEq, Eq, Structural)]
pub enum SymbolKind {
    Function,
    Variable,
}

impl View for SymbolKind {
    type V = SymbolKind;

    open spec fn view(&self) -> SymbolKind {
        *self
    }
}

/// An entry of a document's symbol table.
pub struct SymbolInformation {
    pub symbol: String,
    pub documentation: Vec<String>,
    pub display_name: String,
    pub kind: SymbolKind,
}

pub struct SymbolInformationView {
    pub symbol: Seq<char>,
    pub documentation: Seq<Seq<char>>,
    pub display_name: Seq<char>,
    pub kind: SymbolKind,
}

impl View for SymbolInformation {
    type V = SymbolInformationView;

    open spec fn view(&self) -> SymbolInformationView {
        SymbolInformationView {
            symbol: self.symbol@,
            documentation: strings_view(self.documentation@),
            display_name: self.display_name@,
            kind: self.kind,
        }
    }
}

/// The SCIP range of the `len` bytes at byte `start`, on one line.
pub open spec fn scip_range(bs: Seq<u8>, start: int, len: int) -> Seq<i32> {
    let (l, c) = spec_line_col(bs, start);
    seq![l as i32, c, l as i32, (c + (len as i32)) as i32]
}

/// The occurrence of a raw occurrence.
pub open spec fn occurrence_of(bs: Seq<u8>, o: RawOccurrenceView) -> OccurrenceView {
    OccurrenceView {
        range: scip_range(bs, o.start, o.len),
        symbol: o.symbol,
        symbol_roles: if o.is_definition { SYMBOL_ROLE_DEFINITION } else { 0 },
        syntax_kind: Some(o.syntax_kind),
        diagnostics: seq![],
    }
}

/// An occurrence with its sort key.
pub open spec fn keyed_occurrence(o: OccurrenceView) -> ((Seq<i32>, Seq<char>), OccurrenceView) {
    ((o.range, o.symbol), o)
}

/// Convert a raw occurrence to SCIP coordinates.
fn to_occurrence(text: &str, raw: &RawOccurrence) -> (r: Occurrence)
    requires
        text.spec_bytes().len() <= i32::MAX,
        raw.start + raw.len <= text.spec_bytes().len(),
    ensures
        r@ == occurrence_of(text.spec_bytes(), raw@),
{
    let ghost bs = text.spec_bytes();
    proof {
        let o = if raw.start < bs.len() { raw.start as int } else { bs.len() as int };
        lemma_count_bounds(bs.subrange(0, o));
        lemma_last_line_start_bounds(bs.subrange(0, o));
    }
    let range = byte_range_to_scip(text, raw.start, raw.len);
    let roles = if raw.is_definition { SYMBOL_ROLE_DEFINITION } else { 0 };
    let r = Occurrence {
        range,
        symbol: raw.symbol.clone(),
        symbol_roles: roles,
        syntax_kind: Some(raw.syntax_kind),
        diagnostics: Vec::new(),
    };
    assert(r@.diagnostics =~= seq![]);
    r
}

/// Documentation for a defined symbol that is a GNU Make built-in: targets
/// are matched against the special targets (`.PHONY`, ...). The tables give
/// no descriptions of built-in variables.
pub open spec fn spec_builtin_documentation(name: Seq<char>, kind: SymbolKind) -> Option<Seq<char>> {
    match kind {
        SymbolKind::Function => lookup_doc(spec_special_targets(), name),
        SymbolKind::Variable => lookup_doc(spec_builtin_variable_docs(), name),
    }
}

/// Documentation for a defined symbol that is a GNU Make built-in, if any.
pub fn builtin_documentation(name: &str, kind: SymbolKind) -> (r: Option<&'static str>)
    ensures
        match r {
            Some(d) => spec_builtin_documentation(name@, kind) == Some(d@),
            None => spec_builtin_documentation(name@, kind) is None,
        },
{
    match kind {
        SymbolKind::Function => find_special_target(name),
        SymbolKind::Variable => find_builtin_variable(name),
    }
}

/// A defined symbol: its symbol, with its display name and kind.
pub type DefinitionView = (Seq<char>, (Seq<char>, SymbolKind));

/// The definitions of targets, in order.
pub open spec fn target_definitions(ts: Seq<Seq<char>>) -> Seq<DefinitionView> {
    ts.map_values(|t: Seq<char>| (spec_target_symbol(t), (t, SymbolKind::Function)))
}

/// The definitions of the targets of all rules, in order.
pub open spec fn rule_definitions(rules: Seq<RuleView>) -> Seq<DefinitionView>
    decreases rules.len(),
{
    if rules.len() == 0 {
        seq![]
    } else {
        rule_definitions(rules.drop_last()) + target_definitions(rules.last().targets)
    }
}

/// The names of the variable definitions that have one, in order.
pub open spec fn defined_names(vars: Seq<VariableDefinitionView>) -> Seq<Seq<char>>
    decreases vars.len(),
{
    if vars.len() == 0 {
        seq![]
    } else {
        defined_names(vars.drop_last()) + match vars.last().name {
            Some(n) => seq![n],
            None => seq![],
        }
    }
}

/// All definitions: the targets of the rules, then the named variables.
pub open spec fn all_definitions(rules: Seq<RuleView>, vars: Seq<VariableDefinitionView>) -> Seq<DefinitionView> {
    rule_definitions(rules) + defined_names(vars).map_values(
        |n: Seq<char>| (spec_variable_symbol(n), (n, SymbolKind::Variable)),
    )
}

pub open spec fn definitions_view(v: Seq<(String, (String, SymbolKind))>) -> Seq<DefinitionView> {
    v.map_values(|e: (String, (String, SymbolKind))| (e.0@, (e.1.0@, e.1.1)))
}

/// Collect the defined symbols (for the document symbol table) with
/// display names and kinds.
pub fn collect_definitions(makefile: &Makefile) -> (r: Vec<(String, (String, SymbolKind))>)
    ensures
        definitions_view(r@) == all_definitions(rules_view(makefile.rules@), variables_view(makefile.variables@)),
{
    let ghost rules = rules_view(makefile.rules@);
    let ghost vars = variables_view(makefile.variables@);
    let mut out: Vec<(String, (String, SymbolKind))> = Vec::new();
    let mut i: usize = 0;
    while i < makefile.rules.len()
        invariant
            i <= makefile.rules@.len(),
            rules == rules_view(makefile.rules@),
            definitions_view(out@) == rule_definitions(rules.subrange(0, i as int)),
        decreases makefile.rules@.len() - i,
    {
        let rule = &makefile.rules[i];
        assert(rules.subrange(0, i + 1).drop_last() =~= rules.subrange(0, i as int));
        assert(rules.subrange(0, i + 1).last() == rule@);
        let ghost prev = definitions_view(out@);
        let ghost ts = strings_view(rule.targets@);
        let mut k: usize = 0;
        while k < rule.targets.len()
            invariant
                k <= rule.targets@.len(),
                ts == strings_view(rule.targets@),
                definitions_view(out@) == prev + target_definitions(ts.subrange(0, k as int)),
            decreases rule.targets@.len() - k,
        {
            let t = &rule.targets[k];
            let ghost before = definitions_view(out@);
            let entry = (target_symbol(t.as_str()), (t.clone(), SymbolKind::Function));
            out.push(entry);
            assert(definitions_view(out@) =~= before + seq![(entry.0@, (entry.1.0@, entry.1.1))]);
            assert(target_definitions(ts.subrange(0, k + 1)) =~= target_definitions(ts.subrange(0, k as int))
                + seq![(spec_target_symbol(t@), (t@, SymbolKind::Function))]);
            k += 1;
        }
        assert(ts.subrange(0, k as int) =~= ts);
        i += 1;
    }
    assert(rules.subrange(0, i as int) =~= rules);
    let ghost mid = definitions_view(out@);
    let mut j: usize = 0;
    while j < makefile.variables.len()
        invariant
            j <= makefile.variables@.len(),
            vars == variables_view(makefile.variables@),
            mid == rule_definitions(rules),
            definitions_view(out@) == mid + defined_names(vars.subrange(0, j as int)).map_values(
                |n: Seq<char>| (spec_variable_symbol(n), (n, SymbolKind::Variable)),
            ),
        decreases makefile.variables@.len() - j,
    {
        let var = &makefile.variables[j];
        assert(vars.subrange(0, j + 1).drop_last() =~= vars.subrange(0, j as int));
        assert(vars.subrange(0, j + 1).last() == var@);
        let ghost before = definitions_view(out@);
        if let Some(name) = &var.name {
            let entry = (variable_symbol(name.as_str()), (name.clone(), SymbolKind::Variable));
            out.push(entry);
            assert(definitions_view(out@) =~= before + seq![(entry.0@, (entry.1.0@, entry.1.1))]);
        }
        assert(definitions_view(out@) =~= mid + defined_names(vars.subrange(0, j + 1)).map_values(
            |n: Seq<char>| (spec_variable_symbol(n), (n, SymbolKind::Variable)),
        ));
        j += 1;
    }
    assert(vars.subrange(0, j as int) =~= vars);
    out
}

/// The names of the variable definitions that have one.
pub fn defined_variable_names(makefile: &Makefile) -> (r: Vec<String>)
    ensures
        strings_view(r@) == defined_names(variables_view(makefile.variables@)),
{
    let ghost vars = variables_view(makefile.variables@);
    let mut out: Vec<String> = Vec::new();
    let mut j: usize = 0;
    while j < makefile.variables.len()
        invariant
            j <= makefile.variables@.len(),
            vars == variables_view(makefile.variables@),
            strings_view(out@) == defined_names(vars.subrange(0, j as int)),
        decreases makefile.variables@.len() - j,
    {
        let var = &makefile.variables[j];
        assert(vars.subrange(0, j + 1).drop_last() =~= vars.subrange(0, j as int));
        assert(vars.subrange(0, j + 1).last() == var@);
        let ghost before = strings_view(out@);
        if let Some(name) = &var.name {
            out.push(name.clone());
            assert(strings_view(out@) =~= before + seq![name@]);
        }
        assert(strings_view(out@) =~= defined_names(vars.subrange(0, j + 1)));
        j += 1;
    }
    assert(vars.subrange(0, j as int) =~= vars);
    out
}


/// A document of the index.
pub struct Document {
    pub language: String,
    pub relative_path: String,
    pub occurrences: Vec<Occurrence>,
    pub symbols: Vec<SymbolInformation>,
    pub position_encoding: PositionEncoding,
}

/// How the characters of occurrence ranges are counted.
#[derive(Clone, Copy, Debug, PartialEq, Eq, Structural)]
pub enum PositionEncoding {
    UnspecifiedPositionEncoding,
    UTF8CodeUnitOffsetFromLineStart,
    UTF16CodeUnitOffsetFromLineStart,
    UTF32CodeUnitOffsetFromLineStart,
}

pub open spec fn occurrences_view(v: Seq<Occurrence>) -> Seq<OccurrenceView> {
    v.map_values(|o: Occurrence| o@)
}

pub open spec fn symbols_view(v: Seq<SymbolInformation>) -> Seq<SymbolInformationView> {
    v.map_values(|s: SymbolInformation| s@)
}

/// All symbol occurrences of a text, before sorting: target definitions and
/// prerequisite references, variable definitions, then variable references.
pub open spec fn raw_occurrences(bs: Seq<u8>, rules: Seq<RuleView>, vars: Seq<VariableDefinitionView>) -> Seq<RawOccurrenceView> {
    target_occurrences(bs, rules) + variable_def_occurrences(bs, vars) + reference_occurrences(
        bs,
        spec_variable_references(bs),
        defined_names(vars),
    )
}

/// The raw occurrences in SCIP coordinates, keyed for sorting.
pub open spec fn occurrence_entries(bs: Seq<u8>, raw: Seq<RawOccurrenceView>) -> Seq<((Seq<i32>, Seq<char>), OccurrenceView)> {
    raw.map_values(|o: RawOccurrenceView| keyed_occurrence(occurrence_of(bs, o)))
}

/// The symbol table entry of a definition: documented when it names a
/// built-in.
pub open spec fn info_of_definition(e: DefinitionView) -> SymbolInformationView {
    SymbolInformationView {
        symbol: e.0,
        documentation: match spec_builtin_documentation(e.1.0, e.1.1) {
            Some(d) => seq![d],
            None => seq![],
        },
        display_name: e.1.0,
        kind: e.1.1,
    }
}

/// The symbol table entry of a referenced, undefined built-in variable.
pub open spec fn info_of_builtin(e: DocEntryView) -> SymbolInformationView {
    SymbolInformationView { symbol: e.0, documentation: seq![e.1.1], display_name: e.1.0, kind: SymbolKind::Variable }
}

/// The symbol occurrences and the symbol table of the document of `text`:
/// the occurrences sorted by range then symbol, one per range and symbol
/// (the first found); the definitions, one per symbol (the first found),
/// sorted by symbol; then the referenced built-ins that the file does not
/// define, one per symbol, sorted by symbol.
pub open spec fn document_symbols(
    bs: Seq<u8>,
    rules: Seq<RuleView>,
    vars: Seq<VariableDefinitionView>,
    occurrences: Seq<OccurrenceView>,
    symbols: Seq<SymbolInformationView>,
) -> bool {
    exists|
        occ: Seq<((Seq<i32>, Seq<char>), OccurrenceView)>,
        defs: Seq<DefinitionView>,
        docs: Seq<DocEntryView>,
    |
        {
            &&& first_per_key_view::<OccurrenceKey, OccurrenceView>(
                occ,
                occurrence_entries(bs, raw_occurrences(bs, rules, vars)),
            )
            &&& first_per_key_view::<String, (Seq<char>, SymbolKind)>(defs, all_definitions(rules, vars))
            &&& first_per_key_view::<String, (Seq<char>, Seq<char>)>(
                docs,
                reference_docs(bs, spec_variable_references(bs), defined_names(vars)),
            )
            &&& occurrences == occ.map_values(|e: ((Seq<i32>, Seq<char>), OccurrenceView)| e.1)
            &&& symbols == defs.map_values(|e: DefinitionView| info_of_definition(e)) + docs.map_values(
                |e: DocEntryView| info_of_builtin(e),
            )
        }
}

/// Move the raw occurrences into SCIP coordinates, keyed for sorting.
fn keyed_occurrences(text: &str, raw: &Vec<RawOccurrence>) -> (r: Vec<(OccurrenceKey, Occurrence)>)
    requires
        text.spec_bytes().len() <= i32::MAX,
        occurrences_within(raw@, text.spec_bytes().len() as int),
    ensures
        entries_view(r@) == occurrence_entries(text.spec_bytes(), raw_view(raw@)),
{
    let ghost bs = text.spec_bytes();
    let mut out: Vec<(OccurrenceKey, Occurrence)> = Vec::new();
    let mut i: usize = 0;
    while i < raw.len()
        invariant
            i <= raw@.len(),
            bs == text.spec_bytes(),
            bs.len() <= i32::MAX,
            occurrences_within(raw@, bs.len() as int),
            entries_view(out@) == occurrence_entries(bs, raw_view(raw@.subrange(0, i as int))),
        decreases raw@.len() - i,
    {
        let ghost before = entries_view(out@);
        let occ = to_occurrence(text, &raw[i]);
        let key = OccurrenceKey { range: occ.range.clone(), symbol: occ.symbol.clone() };
        assert(key.range@ =~= occ.range@);
        let entry = (key, occ);
        out.push(entry);
        assert(entries_view(out@) =~= before + seq![(entry.0@, entry.1@)]);
        assert(raw_view(raw@.subrange(0, i + 1)) =~= raw_view(raw@.subrange(0, i as int)) + seq![raw@[i as int]@]);
        assert(occurrence_entries(bs, raw_view(raw@.subrange(0, i + 1))) =~= occurrence_entries(bs, raw_view(raw@.subrange(0, i as int))) + seq![keyed_occurrence(occurrence_of(bs, raw@[i as int]@))]);
        i += 1;
    }
    assert(raw@.subrange(0, i as int) =~= raw@);
    out
}

fn definition_infos(defs: Vec<(String, (String, SymbolKind))>) -> (r: Vec<SymbolInformation>)
    ensures
        symbols_view(r@) == entries_view(defs@).map_values(|e: DefinitionView| info_of_definition(e)),
{
    let ghost dv = entries_view(defs@);
    let mut out: Vec<SymbolInformation> = Vec::new();
    let mut i: usize = 0;
    while i < defs.len()
        invariant
            i <= defs@.len(),
            dv == entries_view(defs@),
            symbols_view(out@) == dv.subrange(0, i as int).map_values(|e: DefinitionView| info_of_definition(e)),
        decreases defs@.len() - i,
    {
        let e = &defs[i];
        let ghost before = symbols_view(out@);
        let mut documentation: Vec<String> = Vec::new();
        if let Some(doc) = builtin_documentation(e.1.0.as_str(), e.1.1) {
            documentation.push(doc.to_owned());
        }
        let info = SymbolInformation {
            symbol: e.0.clone(),
            documentation,
            display_name: e.1.0.clone(),
            kind: e.1.1,
        };
        assert(dv[i as int] == (defs@[i as int].0@, defs@[i as int].1@));
        assert(defs@[i as int].1@ == (e.1.0@, e.1.1));
        assert(info@.documentation =~= info_of_definition(dv[i as int]).documentation);
        assert(info@ == info_of_definition(dv[i as int]));
        out.push(info);
        assert(symbols_view(out@) =~= before + seq![info@]);
        assert(dv.subrange(0, i + 1).map_values(|e: DefinitionView| info_of_definition(e)) =~= dv.subrange(0, i as int).map_values(|e: DefinitionView| info_of_definition(e)) + seq![info_of_definition(dv[i as int])]);
        i += 1;
    }
    assert(dv.subrange(0, i as int) =~= dv);
    out
}

fn builtin_infos(docs: Vec<(String, (String, String))>) -> (r: Vec<SymbolInformation>)
    ensures
        symbols_view(r@) == entries_view(docs@).map_values(|e: DocEntryView| info_of_builtin(e)),
{
    let ghost dv = entries_view(docs@);
    let mut out: Vec<SymbolInformation> = Vec::new();
    let mut i: usize = 0;
    while i < docs.len()
        invariant
            i <= docs@.len(),
            dv == entries_view(docs@),
            symbols_view(out@) == dv.subrange(0, i as int).map_values(|e: DocEntryView| info_of_builtin(e)),
        decreases docs@.len() - i,
    {
        let e = &docs[i];
        let ghost before = symbols_view(out@);
        let mut documentation: Vec<String> = Vec::new();
        documentation.push(e.1.1.clone());
        let info = SymbolInformation {
            symbol: e.0.clone(),
            documentation,
            display_name: e.1.0.clone(),
            kind: SymbolKind::Variable,
        };
        assert(dv[i as int] == (e.0@, (e.1.0@, e.1.1@)));
        assert(info@.documentation =~= info_of_builtin(dv[i as int]).documentation);
        assert(info@ == info_of_builtin(dv[i as int]));
        out.push(info);
        assert(symbols_view(out@) =~= before + seq![info@]);
        assert(dv.subrange(0, i + 1).map_values(|e: DocEntryView| info_of_builtin(e)) =~= dv.subrange(0, i as int).map_values(|e: DocEntryView| info_of_builtin(e)) + seq![info_of_builtin(dv[i as int])]);
        i += 1;
    }
    assert(dv.subrange(0, i as int) =~= dv);
    out
}

fn occurrences_of_entries(entries: Vec<(OccurrenceKey, Occurrence)>) -> (r: Vec<Occurrence>)
    ensures
        occurrences_view(r@) == entries_view(entries@).map_values(|e: ((Seq<i32>, Seq<char>), OccurrenceView)| e.1),
{
    let ghost ev = entries_view(entries@);
    let mut rest = entries;
    let n = rest.len();
    let mut out: Vec<Occurrence> = Vec::new();
    let mut i: usize = 0;
    while rest.len() > 0
        invariant
            i + rest@.len() == ev.len(),
            n == ev.len(),
            entries_view(rest@) == ev.subrange(i as int, ev.len() as int),
            occurrences_view(out@) == ev.subrange(0, i as int).map_values(|e: ((Seq<i32>, Seq<char>), OccurrenceView)| e.1),
        decreases rest@.len(),
    {
        let ghost before = occurrences_view(out@);
        let ghost rv = entries_view(rest@);
        let ghost old_rest = rest@;
        let entry = rest.remove(0);
        assert(rest@ =~= old_rest.subrange(1, old_rest.len() as int));
        assert(rv[0] == (entry.0@, entry.1@));
        assert(ev[i as int] == rv[0]);
        let occ = entry.1;
        assert forall|k: int| 0 <= k < rest@.len() implies #[trigger] entries_view(rest@)[k] == ev[i + 1 + k] by {
            assert(rest@[k] == old_rest[k + 1]);
            assert(rv[k + 1] == ev[i + 1 + k]);
        }
        assert(entries_view(rest@) =~= ev.subrange(i + 1, ev.len() as int));
        out.push(occ);
        assert(occurrences_view(out@) =~= before + seq![occ@]);
        assert(ev.subrange(0, i + 1).map_values(|e: ((Seq<i32>, Seq<char>), OccurrenceView)| e.1) =~= ev.subrange(0, i as int).map_values(|e: ((Seq<i32>, Seq<char>), OccurrenceView)| e.1) + seq![ev[i as int].1]);
        i += 1;
    }
    assert(ev.subrange(0, i as int) =~= ev);
    out
}


/// Map an LSP diagnostic severity to its SCIP equivalent.
pub open spec fn spec_severity_to_scip(severity: Option<DiagnosticSeverity>) -> Severity {
    match severity {
        Some(DiagnosticSeverity::Error) => Severity::Error,
        Some(DiagnosticSeverity::Warning) => Severity::Warning,
        Some(DiagnosticSeverity::Information) => Severity::Information,
        Some(DiagnosticSeverity::Hint) => Severity::Hint,
        None => Severity::UnspecifiedSeverity,
    }
}

/// Map an LSP diagnostic severity to its SCIP equivalent.
pub fn severity_to_scip(severity: Option<DiagnosticSeverity>) -> (r: Severity)
    ensures
        r == spec_severity_to_scip(severity),
{
    match severity {
        Some(DiagnosticSeverity::Error) => Severity::Error,
        Some(DiagnosticSeverity::Warning) => Severity::Warning,
        Some(DiagnosticSeverity::Information) => Severity::Information,
        Some(DiagnosticSeverity::Hint) => Severity::Hint,
        None => Severity::UnspecifiedSeverity,
    }
}

/// A diagnostic code as SCIP expects it: the code, or the empty string.
pub fn diagnostic_code(code: &Option<String>) -> (r: String)
    ensures
        r@ == match code {
            Some(s) => s@,
            None => seq![],
        },
{
    match code {
        Some(s) => s.clone(),
        None => String::new(),
    }
}

/// The SCIP range of a diagnostic: its LSP range converted back to bytes
/// and then to lines and byte columns, or zeros when it does not lie in the
/// text.
pub open spec fn diagnostic_scip_range(bs: Seq<u8>, d: LspDiagnosticView) -> Seq<i32> {
    match (spec_position_to_offset(bs, d.range.start), spec_position_to_offset(bs, d.range.end)) {
        (Some(s), Some(e)) => {
            let (l1, c1) = spec_line_col(bs, s);
            let (l2, c2) = spec_line_col(bs, e);
            seq![l1 as i32, c1, l2 as i32, c2]
        },
        _ => seq![0, 0, 0, 0],
    }
}

/// The symbol-less occurrence carrying a diagnostic.
pub open spec fn diagnostic_occurrence(bs: Seq<u8>, d: LspDiagnosticView) -> OccurrenceView {
    OccurrenceView {
        range: diagnostic_scip_range(bs, d),
        symbol: seq![],
        symbol_roles: 0,
        syntax_kind: None,
        diagnostics: seq![DiagnosticView {
            severity: spec_severity_to_scip(d.severity),
            code: match d.code { Some(c) => c, None => seq![] },
            message: d.message,
            source: match d.source { Some(c) => c, None => seq![] },
        }],
    }
}

/// Each diagnostic range converts back to byte offsets that are in order
/// where both ends lie in the text (converting a reversed range panics).
pub open spec fn diagnostics_in_order(bs: Seq<u8>, ds: Seq<LspDiagnosticView>) -> bool {
    forall|i: int|
        0 <= i < ds.len() ==> ((spec_position_to_offset(bs, (#[trigger] ds[i]).range.start), spec_position_to_offset(
            bs,
            ds[i].range.end,
        )) matches (Some(s), Some(e)) ==> s <= e)
}

/// The diagnostics of `text`, by its parse, convert back in order.
pub open spec fn text_diagnostics_in_order(text: Seq<char>) -> bool {
    diagnostics_in_order(utf8(text), spec_diagnostics(utf8(text), parsed_makefile(text), parsed_errors(text)))
}

/// Do the diagnostics convert back in order?
fn diagnostics_convert_in_order(text: &str, diags: &Vec<crate::diagnostics::Diagnostic>) -> (r: bool)
    ensures
        r == diagnostics_in_order(text.spec_bytes(), diagnostics_view(diags@)),
{
    let ghost dv = diagnostics_view(diags@);
    let mut i: usize = 0;
    while i < diags.len()
        invariant
            i <= diags@.len(),
            dv == diagnostics_view(diags@),
            forall|k: int|
                0 <= k < i ==> ((spec_position_to_offset(text.spec_bytes(), (#[trigger] dv[k]).range.start),
                    spec_position_to_offset(text.spec_bytes(), dv[k].range.end)) matches (Some(s), Some(e)) ==> s <= e),
        decreases diags@.len() - i,
    {
        assert(dv[i as int] == diags@[i as int]@);
        let d = &diags[i];
        match (try_position_to_offset(text, d.range.start), try_position_to_offset(text, d.range.end)) {
            (Some(s), Some(e)) => {
                if s > e {
                    return false;
                }
            },
            _ => {},
        }
        i += 1;
    }
    true
}

/// Occurrences carrying the diagnostics, whose LSP ranges are converted
/// back to byte ranges and then to SCIP ranges.
fn diagnostic_occurrences(text: &str, parsed: &Parse) -> (r: Vec<Occurrence>)
    requires
        text.spec_bytes().len() <= i32::MAX,
        diagnostics_in_order(
            text.spec_bytes(),
            spec_diagnostics(text.spec_bytes(), parsed.makefile@, errors_view(parsed.errors@)),
        ),
    ensures
        occurrences_view(r@) == spec_diagnostics(text.spec_bytes(), parsed.makefile@, errors_view(parsed.errors@)).map_values(
            |d: LspDiagnosticView| diagnostic_occurrence(text.spec_bytes(), d),
        ),
{
    let ghost bs = text.spec_bytes();
    let diags = get_diagnostics(text, parsed);
    let ghost dv = diagnostics_view(diags@);
    let mut out: Vec<Occurrence> = Vec::new();
    let mut i: usize = 0;
    while i < diags.len()
        invariant
            i <= diags@.len(),
            bs == text.spec_bytes(),
            bs.len() <= i32::MAX,
            dv == diagnostics_view(diags@),
            diagnostics_in_order(bs, dv),
            occurrences_view(out@) == dv.subrange(0, i as int).map_values(
                |d: LspDiagnosticView| diagnostic_occurrence(bs, d),
            ),
        decreases diags@.len() - i,
    {
        let d = &diags[i];
        let ghost before = occurrences_view(out@);
        assert(dv[i as int] == d@);
        let range = match try_lsp_range_to_text_range(text, &d.range) {
            Some(r) => {
                proof {
                    let o1 = if (r.start as int) < bs.len() { r.start as int } else { bs.len() as int };
                    let o2 = if (r.end as int) < bs.len() { r.end as int } else { bs.len() as int };
                    lemma_count_bounds(bs.subrange(0, o1));
                    lemma_count_bounds(bs.subrange(0, o2));
                }
                byte_span_to_scip(text, r.start as usize, r.end as usize)
            },
            None => {
                let v: Vec<i32> = vec![0, 0, 0, 0];
                v
            },
        };
        let sd = Diagnostic {
            severity: severity_to_scip(d.severity),
            code: diagnostic_code(&d.code),
            message: d.message.clone(),
            source: diagnostic_code(&d.source),
        };
        let mut diagnostics: Vec<Diagnostic> = Vec::new();
        diagnostics.push(sd);
        let occ = Occurrence {
            range,
            symbol: String::new(),
            symbol_roles: 0,
            syntax_kind: None,
            diagnostics,
        };
        assert(occ@.range =~= diagnostic_scip_range(bs, d@));
        assert(occ@.diagnostics =~= diagnostic_occurrence(bs, d@).diagnostics);
        assert(occ@ == diagnostic_occurrence(bs, d@));
        out.push(occ);
        assert(occurrences_view(out@) =~= before + seq![occ@]);
        assert(dv.subrange(0, i + 1).map_values(|d: LspDiagnosticView| diagnostic_occurrence(bs, d)) =~= dv.subrange(
            0,
            i as int,
        ).map_values(|d: LspDiagnosticView| diagnostic_occurrence(bs, d)) + seq![diagnostic_occurrence(bs, d@)]);
        i += 1;
    }
    assert(dv.subrange(0, i as int) =~= dv);
    out
}


proof fn lemma_document_symbols(
    bs: Seq<u8>,
    rules: Seq<RuleView>,
    vars: Seq<VariableDefinitionView>,
    occurrences: Seq<OccurrenceView>,
    symbols: Seq<SymbolInformationView>,
    occ: Seq<((Seq<i32>, Seq<char>), OccurrenceView)>,
    defs: Seq<DefinitionView>,
    docs: Seq<DocEntryView>,
)
    requires
        first_per_key_view::<OccurrenceKey, OccurrenceView>(
            occ,
            occurrence_entries(bs, raw_occurrences(bs, rules, vars)),
        ),
        first_per_key_view::<String, (Seq<char>, SymbolKind)>(defs, all_definitions(rules, vars)),
        first_per_key_view::<String, (Seq<char>, Seq<char>)>(
            docs,
            reference_docs(bs, spec_variable_references(bs), defined_names(vars)),
        ),
        occurrences == occ.map_values(|e: ((Seq<i32>, Seq<char>), OccurrenceView)| e.1),
        symbols == defs.map_values(|e: DefinitionView| info_of_definition(e)) + docs.map_values(
            |e: DocEntryView| info_of_builtin(e),
        ),
    ensures
        document_symbols(bs, rules, vars, occurrences, symbols),
{
}

/// The symbol occurrences of a Makefile in SCIP coordinates, sorted by
/// range then symbol, one per range and symbol; with the documented
/// built-ins that it references without defining them.
fn symbol_occurrences(text: &str, makefile: &Makefile) -> (r: (Vec<Occurrence>, Vec<(String, (String, String))>))
    requires
        text.spec_bytes().len() <= i32::MAX,
    ensures
        exists|occ: Seq<((Seq<i32>, Seq<char>), OccurrenceView)>|
            #[trigger] first_per_key_view::<OccurrenceKey, OccurrenceView>(
                occ,
                occurrence_entries(
                    text.spec_bytes(),
                    raw_occurrences(text.spec_bytes(), makefile@.rules, makefile@.variables),
                ),
            ) && occurrences_view(r.0@) == occ.map_values(|e: ((Seq<i32>, Seq<char>), OccurrenceView)| e.1),
        doc_entries_view(r.1@) == reference_docs(
            text.spec_bytes(),
            spec_variable_references(text.spec_bytes()),
            defined_names(makefile@.variables),
        ),
{
    let ghost bs = text.spec_bytes();
    let user_defined = defined_variable_names(makefile);
    let mut raw = collect_targets(makefile, text);
    let mut var_defs = collect_variable_definitions(makefile, text);
    let (mut var_refs, docs) = collect_variable_references(text, &user_defined);
    let ghost r1 = raw@;
    let ghost r2 = var_defs@;
    let ghost r3 = var_refs@;
    raw.append(&mut var_defs);
    raw.append(&mut var_refs);
    proof {
        assert(raw@ == r1 + r2 + r3);
        assert(raw_view(raw@) =~= raw_view(r1) + raw_view(r2) + raw_view(r3));
        assert forall|k: int| 0 <= k < raw@.len() implies (#[trigger] raw@[k]).start + raw@[k].len <= bs.len() by {
            if k < r1.len() {
                assert(raw@[k] == r1[k]);
            } else if k < r1.len() + r2.len() {
                assert(raw@[k] == r2[k - r1.len()]);
            } else {
                assert(raw@[k] == r3[k - r1.len() - r2.len()]);
            }
        }
    }
    let keyed = keyed_occurrences(text, &raw);
    let ghost kv = keyed@;
    let sorted = first_entries_by_key(keyed);
    proof {
        lemma_first_per_key_view(sorted@, kv);
    }
    let ghost occ_entries = entries_view(sorted@);
    let occurrences = occurrences_of_entries(sorted);
    proof {
        let rules = makefile@.rules;
        let vars = makefile@.variables;
        assert(raw_view(raw@) == raw_occurrences(bs, rules, vars));
        assert(entries_view(kv) == occurrence_entries(bs, raw_occurrences(bs, rules, vars)));
        assert(first_per_key_view::<OccurrenceKey, OccurrenceView>(occ_entries, occurrence_entries(bs, raw_occurrences(bs, rules, vars))));
        assert(occurrences_view(occurrences@) == occ_entries.map_values(|e: ((Seq<i32>, Seq<char>), OccurrenceView)| e.1));
    }
    (occurrences, docs)
}

/// The symbol table of a Makefile: its definitions, one per symbol, sorted
/// by symbol; then the referenced built-ins of `docs`, one per symbol,
/// sorted by symbol.
fn symbol_table(makefile: &Makefile, docs: Vec<(String, (String, String))>) -> (r: Vec<SymbolInformation>)
    ensures
        exists|defs: Seq<DefinitionView>, dcs: Seq<DocEntryView>|
            #[trigger] first_per_key_view::<String, (Seq<char>, SymbolKind)>(
                defs,
                all_definitions(makefile@.rules, makefile@.variables),
            ) && #[trigger] first_per_key_view::<String, (Seq<char>, Seq<char>)>(dcs, doc_entries_view(docs@))
                && symbols_view(r@) == defs.map_values(|e: DefinitionView| info_of_definition(e))
                + dcs.map_values(|e: DocEntryView| info_of_builtin(e)),
{
    let defs_in = collect_definitions(makefile);
    let ghost dv = defs_in@;
    let defs = first_entries_by_key(defs_in);
    proof {
        lemma_first_per_key_view(defs@, dv);
        assert(entries_view(dv) =~= definitions_view(dv));
    }
    let ghost def_entries = entries_view(defs@);
    let ghost docv = docs@;
    let builtin = first_entries_by_key(docs);
    proof {
        lemma_first_per_key_view(builtin@, docv);
        assert(entries_view(docv) =~= doc_entries_view(docv));
    }
    let ghost doc_entries = entries_view(builtin@);
    let mut symbols = definition_infos(defs);
    let mut more = builtin_infos(builtin);
    let ghost s1 = symbols@;
    let ghost s2 = more@;
    symbols.append(&mut more);
    assert(symbols_view(symbols@) =~= symbols_view(s1) + symbols_view(s2));
    proof {
        assert(definitions_view(dv) == all_definitions(makefile@.rules, makefile@.variables));
        assert(first_per_key_view::<String, (Seq<char>, SymbolKind)>(def_entries, all_definitions(makefile@.rules, makefile@.variables)));
        assert(first_per_key_view::<String, (Seq<char>, Seq<char>)>(doc_entries, doc_entries_view(docv)));
    }
    symbols
}

/// The occurrences carrying the diagnostics of the parse of `text`.
pub open spec fn diagnostic_occurrences_of(text: Seq<char>) -> Seq<OccurrenceView> {
    let bs = utf8(text);
    spec_diagnostics(bs, parsed_makefile(text), parsed_errors(text)).map_values(
        |d: LspDiagnosticView| diagnostic_occurrence(bs, d),
    )
}

/// The occurrences and symbol table of the document of `text`: its symbol
/// occurrences and symbol table as `document_symbols` says, then the
/// occurrences carrying its diagnostics.
pub open spec fn document_content(text: Seq<char>, occurrences: Seq<OccurrenceView>, symbols: Seq<SymbolInformationView>) -> bool {
    exists|n: int|
        0 <= n <= occurrences.len() && #[trigger] document_symbols(
            utf8(text),
            parsed_rules(text),
            parsed_variables(text),
            occurrences.subrange(0, n),
            symbols,
        ) && occurrences.subrange(n, occurrences.len() as int) == diagnostic_occurrences_of(text)
}

/// The first `n` occurrences are strictly ordered by range and then
/// symbol, and the others are symbol-less, each carrying one diagnostic.
pub open spec fn symbols_then_diagnostics(occurrences: Seq<OccurrenceView>, n: int) -> bool {
    &&& 0 <= n <= occurrences.len()
    &&& forall|i: int, j: int|
        0 <= i < j < n ==> OccurrenceKey::key_lt(
            (#[trigger] occurrences[i].range, occurrences[i].symbol),
            (#[trigger] occurrences[j].range, occurrences[j].symbol),
        )
    &&& forall|k: int|
        n <= k < occurrences.len() ==> (#[trigger] occurrences[k]).symbol.len() == 0 && occurrences[k].diagnostics.len() == 1
}

/// The occurrences of a document: first the symbol occurrences, strictly
/// ordered by range and then symbol (so no two share both), then one
/// symbol-less occurrence per diagnostic, each carrying that diagnostic.
#[verifier::rlimit(80)]
pub proof fn lemma_document_layout(text: Seq<char>, occurrences: Seq<OccurrenceView>, symbols: Seq<SymbolInformationView>)
    requires
        document_content(text, occurrences, symbols),
    ensures
        exists|n: int| #[trigger] symbols_then_diagnostics(occurrences, n),
{
    let n = choose|n: int|
        0 <= n <= occurrences.len() && #[trigger] document_symbols(
            utf8(text),
            parsed_rules(text),
            parsed_variables(text),
            occurrences.subrange(0, n),
            symbols,
        ) && occurrences.subrange(n, occurrences.len() as int) == diagnostic_occurrences_of(text);
    let bs = utf8(text);
    let rules = parsed_rules(text);
    let vars = parsed_variables(text);
    let head = occurrences.subrange(0, n);
    let (occ, defs, docs) = choose|
        occ: Seq<((Seq<i32>, Seq<char>), OccurrenceView)>,
        defs: Seq<DefinitionView>,
        docs: Seq<DocEntryView>,
    |
        {
            &&& first_per_key_view::<OccurrenceKey, OccurrenceView>(
                occ,
                occurrence_entries(bs, raw_occurrences(bs, rules, vars)),
            )
            &&& first_per_key_view::<String, (Seq<char>, SymbolKind)>(defs, all_definitions(rules, vars))
            &&& first_per_key_view::<String, (Seq<char>, Seq<char>)>(
                docs,
                reference_docs(bs, spec_variable_references(bs), defined_names(vars)),
            )
            &&& head == occ.map_values(|e: ((Seq<i32>, Seq<char>), OccurrenceView)| e.1)
            &&& symbols == defs.map_values(|e: DefinitionView| info_of_definition(e)) + docs.map_values(
                |e: DocEntryView| info_of_builtin(e),
            )
        };
    let input = occurrence_entries(bs, raw_occurrences(bs, rules, vars));
    assert forall|k: int| 0 <= k < occ.len() implies (#[trigger] occ[k]).0 == (occ[k].1.range, occ[k].1.symbol) by {
        let f = first_key_index(input, occ[k].0, 0);
        lemma_first_key_index_bounds(input, occ[k].0, 0);
        assert(f < input.len() && input[f] == occ[k]);
    }
    assert forall|i: int, j: int| 0 <= i < j < n implies OccurrenceKey::key_lt(
        (#[trigger] occurrences[i].range, occurrences[i].symbol),
        (#[trigger] occurrences[j].range, occurrences[j].symbol),
    ) by {
        assert(head.len() == n);
        assert(occ.map_values(|e: ((Seq<i32>, Seq<char>), OccurrenceView)| e.1).len() == occ.len());
        assert(occurrences[i] == head[i]);
        assert(occurrences[j] == head[j]);
        assert(head[i] == occ[i].1);
        assert(head[j] == occ[j].1);
        assert(OccurrenceKey::key_lt(occ[i].0, occ[j].0));
    }
    assert forall|k: int| n <= k < occurrences.len() implies (#[trigger] occurrences[k]).symbol.len() == 0
        && occurrences[k].diagnostics.len() == 1 by {
        let ds = spec_diagnostics(bs, parsed_makefile(text), parsed_errors(text));
        let dd = diagnostic_occurrences_of(text);
        assert(occurrences[k] == occurrences.subrange(n, occurrences.len() as int)[k - n]);
        assert(dd.len() == ds.len());
        assert(dd[k - n] == diagnostic_occurrence(bs, ds[k - n]));
        assert(diagnostic_occurrence(bs, ds[k - n]).symbol.len() == 0);
    }
    assert(symbols_then_diagnostics(occurrences, n));
}

proof fn lemma_document_symbols_unique(
    bs: Seq<u8>,
    rules: Seq<RuleView>,
    vars: Seq<VariableDefinitionView>,
    h1: Seq<OccurrenceView>,
    s1: Seq<SymbolInformationView>,
    h2: Seq<OccurrenceView>,
    s2: Seq<SymbolInformationView>,
)
    requires
        document_symbols(bs, rules, vars, h1, s1),
        document_symbols(bs, rules, vars, h2, s2),
    ensures
        h1 == h2,
        s1 == s2,
{
    let oi = occurrence_entries(bs, raw_occurrences(bs, rules, vars));
    let di = all_definitions(rules, vars);
    let ri = reference_docs(bs, spec_variable_references(bs), defined_names(vars));
    let (occ1, defs1, docs1) = choose|
        occ: Seq<((Seq<i32>, Seq<char>), OccurrenceView)>,
        defs: Seq<DefinitionView>,
        docs: Seq<DocEntryView>,
    |
        {
            &&& first_per_key_view::<OccurrenceKey, OccurrenceView>(occ, oi)
            &&& first_per_key_view::<String, (Seq<char>, SymbolKind)>(defs, di)
            &&& first_per_key_view::<String, (Seq<char>, Seq<char>)>(docs, ri)
            &&& h1 == occ.map_values(|e: ((Seq<i32>, Seq<char>), OccurrenceView)| e.1)
            &&& s1 == defs.map_values(|e: DefinitionView| info_of_definition(e)) + docs.map_values(
                |e: DocEntryView| info_of_builtin(e),
            )
        };
    let (occ2, defs2, docs2) = choose|
        occ: Seq<((Seq<i32>, Seq<char>), OccurrenceView)>,
        defs: Seq<DefinitionView>,
        docs: Seq<DocEntryView>,
    |
        {
            &&& first_per_key_view::<OccurrenceKey, OccurrenceView>(occ, oi)
            &&& first_per_key_view::<String, (Seq<char>, SymbolKind)>(defs, di)
            &&& first_per_key_view::<String, (Seq<char>, Seq<char>)>(docs, ri)
            &&& h2 == occ.map_values(|e: ((Seq<i32>, Seq<char>), OccurrenceView)| e.1)
            &&& s2 == defs.map_values(|e: DefinitionView| info_of_definition(e)) + docs.map_values(
                |e: DocEntryView| info_of_builtin(e),
            )
        };
    lemma_first_per_key_view_unique::<OccurrenceKey, OccurrenceView>(occ1, occ2, oi);
    lemma_first_per_key_view_unique::<String, (Seq<char>, SymbolKind)>(defs1, defs2, di);
    lemma_first_per_key_view_unique::<String, (Seq<char>, Seq<char>)>(docs1, docs2, ri);
}

/// The contract of a document determines it: two documents of the same text
/// have the same occurrences and the same symbol table. So each document of
/// an index (`build_index`) is the document that `build_document` builds
/// for its file alone.
#[verifier::spinoff_prover]
pub proof fn lemma_document_content_unique(
    text: Seq<char>,
    o1: Seq<OccurrenceView>,
    s1: Seq<SymbolInformationView>,
    o2: Seq<OccurrenceView>,
    s2: Seq<SymbolInformationView>,
)
    requires
        document_content(text, o1, s1),
        document_content(text, o2, s2),
    ensures
        o1 == o2,
        s1 == s2,
{
    let bs = utf8(text);
    let rules = parsed_rules(text);
    let vars = parsed_variables(text);
    let n1 = choose|n: int|
        0 <= n <= o1.len() && #[trigger] document_symbols(bs, rules, vars, o1.subrange(0, n), s1)
            && o1.subrange(n, o1.len() as int) == diagnostic_occurrences_of(text);
    let n2 = choose|n: int|
        0 <= n <= o2.len() && #[trigger] document_symbols(bs, rules, vars, o2.subrange(0, n), s2)
            && o2.subrange(n, o2.len() as int) == diagnostic_occurrences_of(text);
    lemma_document_symbols_unique(bs, rules, vars, o1.subrange(0, n1), s1, o2.subrange(0, n2), s2);
    lemma_same_parts_same_seq(o1, n1, o2, n2);
}

/// Two sequences cut into equal heads and equal tails are equal.
proof fn lemma_same_parts_same_seq<T>(a: Seq<T>, na: int, b: Seq<T>, nb: int)
    requires
        0 <= na <= a.len(),
        0 <= nb <= b.len(),
        a.subrange(0, na) == b.subrange(0, nb),
        a.subrange(na, a.len() as int) == b.subrange(nb, b.len() as int),
    ensures
        a == b,
{
    assert(a =~= a.subrange(0, na) + a.subrange(na, a.len() as int));
    assert(b =~= b.subrange(0, nb) + b.subrange(nb, b.len() as int));
}

proof fn lemma_double_backticks_injective(a: Seq<char>, b: Seq<char>)
    ensures
        double_backticks(a) == double_backticks(b) ==> a == b,
    decreases a.len(),
{
    let da = double_backticks(a);
    let db = double_backticks(b);
    if da == db {
        if a.len() == 0 {
            if b.len() > 0 {
                assert(db.len() > 0);
            }
            assert(a =~= b);
        } else if b.len() == 0 {
            assert(da.len() > 0);
        } else {
            let pa = if a[0] == '`' { seq!['`', '`'] } else { seq![a[0]] };
            let pb = if b[0] == '`' { seq!['`', '`'] } else { seq![b[0]] };
            assert(da == pa + double_backticks(a.drop_first()));
            assert(db == pb + double_backticks(b.drop_first()));
            assert(da[0] == pa[0] && db[0] == pb[0]);
            if a[0] == '`' {
                assert(b[0] == '`');
            }
            if b[0] == '`' {
                assert(a[0] == '`');
            }
            assert(pa == pb);
            assert(double_backticks(a.drop_first()) =~= da.subrange(pa.len() as int, da.len() as int));
            assert(double_backticks(b.drop_first()) =~= db.subrange(pb.len() as int, db.len() as int));
            lemma_double_backticks_injective(a.drop_first(), b.drop_first());
            assert(a =~= seq![a[0]] + a.drop_first());
            assert(b =~= seq![b[0]] + b.drop_first());
        }
    }
}

proof fn lemma_escape_name_injective(a: Seq<char>, b: Seq<char>)
    ensures
        escape_name(a) == escape_name(b) ==> a == b,
{
    let ea = escape_name(a);
    let eb = escape_name(b);
    let sa = forall|i: int| 0 <= i < a.len() ==> simple_name_char(#[trigger] a[i]);
    let sb = forall|i: int| 0 <= i < b.len() ==> simple_name_char(#[trigger] b[i]);
    if ea == eb {
        if sa && !sb {
            assert(eb[0] == '`');
            if a.len() == 0 {
                assert(eb.len() >= 2);
            } else {
                assert(simple_name_char(a[0]));
            }
        } else if !sa && sb {
            assert(ea[0] == '`');
            if b.len() == 0 {
                assert(ea.len() >= 2);
            } else {
                assert(simple_name_char(b[0]));
            }
        } else if !sa && !sb {
            assert(double_backticks(a) =~= ea.subrange(1, ea.len() - 1));
            assert(double_backticks(b) =~= eb.subrange(1, eb.len() - 1));
            lemma_double_backticks_injective(a, b);
        }
    }
}

/// Distinct names have distinct variable symbols, and no variable symbol
/// is a target symbol.
proof fn lemma_variable_symbol_injective(a: Seq<char>, b: Seq<char>)
    ensures
        spec_variable_symbol(a) == spec_variable_symbol(b) ==> a == b,
        spec_variable_symbol(a).len() > 0 && spec_variable_symbol(a).last() == '.',
        spec_target_symbol(a).len() > 0 && spec_target_symbol(a).last() == '/',
{
    let p = SCHEME@ + seq![' ', '.', ' ', '.', ' ', '.', ' '];
    let va = spec_variable_symbol(a);
    let vb = spec_variable_symbol(b);
    assert(va == p + escape_name(a) + seq!['.']);
    assert(vb == p + escape_name(b) + seq!['.']);
    if va == vb {
        assert(escape_name(a) =~= va.subrange(p.len() as int, va.len() - 1));
        assert(escape_name(b) =~= vb.subrange(p.len() as int, vb.len() - 1));
        lemma_escape_name_injective(a, b);
    }
}

proof fn lemma_reference_docs_entries(bs: Seq<u8>, spans: Seq<(int, int)>, user: Seq<Seq<char>>)
    ensures
        forall|k: int|
            0 <= k < reference_docs(bs, spans, user).len() ==> (#[trigger] reference_docs(bs, spans, user)[k]).0
                == spec_variable_symbol(reference_docs(bs, spans, user)[k].1.0) && !user.contains(
                reference_docs(bs, spans, user)[k].1.0,
            ),
    decreases spans.len(),
{
    if spans.len() > 0 {
        lemma_reference_docs_entries(bs, spans.drop_last(), user);
        let prev = reference_docs(bs, spans.drop_last(), user);
        let all = reference_docs(bs, spans, user);
        assert forall|k: int| 0 <= k < all.len() implies (#[trigger] all[k]).0 == spec_variable_symbol(all[k].1.0)
            && !user.contains(all[k].1.0) by {
            if k < prev.len() {
                assert(all[k] == prev[k]);
            }
        }
    }
}

proof fn lemma_rule_definitions_entries(rules: Seq<RuleView>)
    ensures
        forall|k: int|
            0 <= k < rule_definitions(rules).len() ==> (#[trigger] rule_definitions(rules)[k]).0.len() > 0
                && rule_definitions(rules)[k].0.last() == '/',
    decreases rules.len(),
{
    if rules.len() > 0 {
        lemma_rule_definitions_entries(rules.drop_last());
        let prev = rule_definitions(rules.drop_last());
        let all = rule_definitions(rules);
        let td = target_definitions(rules.last().targets);
        assert forall|k: int| 0 <= k < all.len() implies (#[trigger] all[k]).0.len() > 0 && all[k].0.last() == '/' by {
            if k < prev.len() {
                assert(all[k] == prev[k]);
            } else {
                assert(all[k] == td[k - prev.len()]);
                lemma_variable_symbol_injective(rules.last().targets[k - prev.len()], rules.last().targets[k - prev.len()]);
            }
        }
    }
}

proof fn lemma_all_definitions_entries(rules: Seq<RuleView>, vars: Seq<VariableDefinitionView>)
    ensures
        forall|k: int|
            0 <= k < all_definitions(rules, vars).len() ==> ((#[trigger] all_definitions(rules, vars)[k]).0.len() > 0
                && all_definitions(rules, vars)[k].0.last() == '/') || (all_definitions(rules, vars)[k].0
                == spec_variable_symbol(all_definitions(rules, vars)[k].1.0) && defined_names(vars).contains(
                all_definitions(rules, vars)[k].1.0,
            )),
{
    lemma_rule_definitions_entries(rules);
    let rd = rule_definitions(rules);
    let dn = defined_names(vars);
    let all = all_definitions(rules, vars);
    assert forall|k: int| 0 <= k < all.len() implies ((#[trigger] all[k]).0.len() > 0 && all[k].0.last() == '/') || (
    all[k].0 == spec_variable_symbol(all[k].1.0) && dn.contains(all[k].1.0)) by {
        if k < rd.len() {
            assert(all[k] == rd[k]);
        } else {
            assert(all[k] == (spec_variable_symbol(dn[k - rd.len()]), (dn[k - rd.len()], SymbolKind::Variable)));
            assert(dn.contains(dn[k - rd.len()]));
        }
    }
}

/// No two entries of a document's symbol table have the same symbol.
pub proof fn lemma_symbol_table_distinct(text: Seq<char>, occurrences: Seq<OccurrenceView>, symbols: Seq<SymbolInformationView>)
    requires
        document_content(text, occurrences, symbols),
    ensures
        forall|i: int, j: int| 0 <= i < j < symbols.len() ==> (#[trigger] symbols[i]).symbol != (#[trigger] symbols[j]).symbol,
{
    let bs = utf8(text);
    let rules = parsed_rules(text);
    let vars = parsed_variables(text);
    let n = choose|n: int|
        0 <= n <= occurrences.len() && #[trigger] document_symbols(bs, rules, vars, occurrences.subrange(0, n), symbols)
            && occurrences.subrange(n, occurrences.len() as int) == diagnostic_occurrences_of(text);
    let head = occurrences.subrange(0, n);
    let di = all_definitions(rules, vars);
    let ri = reference_docs(bs, spec_variable_references(bs), defined_names(vars));
    let (occ, defs, docs) = choose|
        occ: Seq<((Seq<i32>, Seq<char>), OccurrenceView)>,
        defs: Seq<DefinitionView>,
        docs: Seq<DocEntryView>,
    |
        {
            &&& first_per_key_view::<OccurrenceKey, OccurrenceView>(
                occ,
                occurrence_entries(bs, raw_occurrences(bs, rules, vars)),
            )
            &&& first_per_key_view::<String, (Seq<char>, SymbolKind)>(defs, di)
            &&& first_per_key_view::<String, (Seq<char>, Seq<char>)>(docs, ri)
            &&& head == occ.map_values(|e: ((Seq<i32>, Seq<char>), OccurrenceView)| e.1)
            &&& symbols == defs.map_values(|e: DefinitionView| info_of_definition(e)) + docs.map_values(
                |e: DocEntryView| info_of_builtin(e),
            )
        };
    lemma_all_definitions_entries(rules, vars);
    lemma_reference_docs_entries(bs, spec_variable_references(bs), defined_names(vars));
    let dl = defs.len() as int;
    assert forall|k: int| 0 <= k < symbols.len() implies (#[trigger] symbols[k]).symbol == (if k < dl {
        defs[k].0
    } else {
        docs[k - dl].0
    }) by {}
    assert forall|k: int| 0 <= k < dl implies (#[trigger] defs[k]).0.len() > 0 && defs[k].0.last() == '/' || (
    defs[k].0 == spec_variable_symbol(defs[k].1.0) && defined_names(vars).contains(defs[k].1.0)) by {
        let f = first_key_index(di, defs[k].0, 0);
        lemma_first_key_index_bounds(di, defs[k].0, 0);
        assert(di[f] == defs[k]);
    }
    assert forall|k: int| 0 <= k < docs.len() implies (#[trigger] docs[k]).0 == spec_variable_symbol(docs[k].1.0)
        && !defined_names(vars).contains(docs[k].1.0) by {
        let f = first_key_index(ri, docs[k].0, 0);
        lemma_first_key_index_bounds(ri, docs[k].0, 0);
        assert(ri[f] == docs[k]);
    }
    assert forall|i: int, j: int| 0 <= i < j < symbols.len() implies (#[trigger] symbols[i]).symbol != (
    #[trigger] symbols[j]).symbol by {
        if j < dl {
            assert(str_lt(defs[i].0, defs[j].0));
            lemma_str_lt_order(defs[i].0, defs[j].0, defs[j].0);
        } else if i >= dl {
            assert(str_lt(docs[i - dl].0, docs[j - dl].0));
            lemma_str_lt_order(docs[i - dl].0, docs[j - dl].0, docs[j - dl].0);
        } else {
            let d = docs[j - dl];
            lemma_variable_symbol_injective(d.1.0, defs[i].1.0);
            lemma_variable_symbol_injective(defs[i].1.0, d.1.0);
        }
    }
}

/// Build the SCIP document of one Makefile: its symbol occurrences sorted
/// by range and symbol, then the occurrences carrying its diagnostics; its
/// symbol table; ranges in UTF-8 bytes from the start of the line.
pub fn build_document(relative_path: &str, text: &str) -> (r: Document)
    requires
        text.spec_bytes().len() <= i32::MAX,
        text_diagnostics_in_order(text@),
    ensures
        r.language@ == "makefile"@,
        r.relative_path@ == relative_path@,
        r.position_encoding == PositionEncoding::UTF8CodeUnitOffsetFromLineStart,
        document_content(text@, occurrences_view(r.occurrences@), symbols_view(r.symbols@)),
{
    let ghost bs = text.spec_bytes();
    let parsed = Makefile::parse(text);
    assert(parsed.makefile@ == parsed_makefile(text@));
    assert(errors_view(parsed.errors@) == parsed_errors(text@));
    let makefile = &parsed.makefile;
    let (mut occurrences, docs) = symbol_occurrences(text, makefile);
    let ghost docs_view = doc_entries_view(docs@);
    let symbols = symbol_table(makefile, docs);
    let ghost n = occurrences@.len() as int;
    let mut diag_occs = diagnostic_occurrences(text, &parsed);
    let ghost o1 = occurrences@;
    let ghost o2 = diag_occs@;
    occurrences.append(&mut diag_occs);
    proof {
        assert(occurrences_view(occurrences@) =~= occurrences_view(o1) + occurrences_view(o2));
        assert(occurrences_view(occurrences@).subrange(0, n) =~= occurrences_view(o1));
        assert(occurrences_view(occurrences@).subrange(n, occurrences@.len() as int) =~= occurrences_view(o2));
        assert(parsed.makefile@ == parsed_makefile(text@));
        assert(errors_view(parsed.errors@) == parsed_errors(text@));
        let rules = parsed_rules(text@);
        let vars = parsed_variables(text@);
        assert(makefile@.rules == rules);
        assert(makefile@.variables == vars);
        let occ = choose|occ: Seq<((Seq<i32>, Seq<char>), OccurrenceView)>|
            #[trigger] first_per_key_view::<OccurrenceKey, OccurrenceView>(
                occ,
                occurrence_entries(bs, raw_occurrences(bs, rules, vars)),
            ) && occurrences_view(o1) == occ.map_values(|e: ((Seq<i32>, Seq<char>), OccurrenceView)| e.1);
        let (defs, dcs) = choose|defs: Seq<DefinitionView>, dcs: Seq<DocEntryView>|
            #[trigger] first_per_key_view::<String, (Seq<char>, SymbolKind)>(defs, all_definitions(rules, vars))
                && #[trigger] first_per_key_view::<String, (Seq<char>, Seq<char>)>(dcs, docs_view)
                && symbols_view(symbols@) == defs.map_values(|e: DefinitionView| info_of_definition(e))
                + dcs.map_values(|e: DocEntryView| info_of_builtin(e));
        lemma_document_symbols(bs, rules, vars, occurrences_view(o1), symbols_view(symbols@), occ, defs, dcs);
        assert(document_symbols(bs, rules, vars, occurrences_view(occurrences@).subrange(0, n), symbols_view(symbols@)));
        assert(occurrences_view(occurrences@).subrange(n, occurrences@.len() as int) == diagnostic_occurrences_of(text@));
    }
    assert(document_content(text@, occurrences_view(occurrences@), symbols_view(symbols@)));
    Document {
        language: "makefile".to_owned(),
        relative_path: relative_path.to_owned(),
        occurrences,
        symbols,
        position_encoding: PositionEncoding::UTF8CodeUnitOffsetFromLineStart,
    }
}


/// The name under which the index is produced.
pub const TOOL_NAME: &'static str = "makefile-lsp";

/// The version of this package.
pub const TOOL_VERSION: &'static str = "0.1.0";

#[verifier::external_type_specification]
#[verifier::external_body]
pub struct ExPathBuf(std::path::PathBuf);

/// A source file to index, identified by its path relative to the project
/// root.
pub struct SourceFile {
    /// Path relative to the project root, used as the document's identifier.
    pub relative_path: String,
    /// The file's contents.
    pub text: String,
    /// The directory that holds the file, when known. It is carried with the
    /// file for callers; the diagnostics of an index do not read it, so two
    /// files that differ only here are indexed alike.
    pub base_dir: Option<std::path::PathBuf>,
}

/// How the text of the documents is encoded.
#[derive(Clone, Copy, Debug, PartialEq, Eq, Structural)]
pub enum TextEncoding {
    UnspecifiedTextEncoding,
    UTF8,
    UTF16,
}

/// The tool that produced an index.
pub struct ToolInfo {
    pub name: String,
    pub version: String,
    pub arguments: Vec<String>,
}

/// The metadata of an index.
pub struct Metadata {
    pub tool_info: ToolInfo,
    pub project_root: String,
    pub text_document_encoding: TextEncoding,
}

/// A SCIP index.
pub struct Index {
    pub metadata: Metadata,
    pub documents: Vec<Document>,
    /// Symbols that the documents use and other indexes define.
    pub external_symbols: Vec<SymbolInformation>,
}

/// Build a SCIP index for a set of Makefiles. `project_root` is a
/// URI-encoded absolute path; each source file is relative to that root.
pub fn build_index(project_root: &str, files: &[SourceFile]) -> (r: Index)
    requires
        forall|k: int| 0 <= k < files@.len() ==> utf8((#[trigger] files@[k]).text@).len() <= i32::MAX,
        forall|k: int| 0 <= k < files@.len() ==> text_diagnostics_in_order((#[trigger] files@[k]).text@),
    ensures
        r.metadata.project_root@ == project_root@,
        r.metadata.tool_info.name@ == TOOL_NAME@,
        r.metadata.tool_info.version@ == TOOL_VERSION@,
        r.metadata.tool_info.arguments@.len() == 0,
        r.metadata.text_document_encoding == TextEncoding::UTF8,
        r.documents@.len() == files@.len(),
        r.external_symbols@.len() == 0,
        forall|k: int|
            0 <= k < files@.len() ==> {
                let d = #[trigger] r.documents@[k];
                &&& d.language@ == "makefile"@
                &&& d.relative_path@ == files@[k].relative_path@
                &&& d.position_encoding == PositionEncoding::UTF8CodeUnitOffsetFromLineStart
                &&& document_content(files@[k].text@, occurrences_view(d.occurrences@), symbols_view(d.symbols@))
            },
{
    let mut documents: Vec<Document> = Vec::new();
    let mut i: usize = 0;
    while i < files.len()
        invariant
            i <= files@.len(),
            documents@.len() == i,
            forall|k: int| 0 <= k < files@.len() ==> utf8((#[trigger] files@[k]).text@).len() <= i32::MAX,
            forall|k: int| 0 <= k < files@.len() ==> text_diagnostics_in_order((#[trigger] files@[k]).text@),
            forall|k: int|
                0 <= k < i ==> {
                    let d = #[trigger] documents@[k];
                    &&& d.language@ == "makefile"@
                    &&& d.relative_path@ == files@[k].relative_path@
                    &&& d.position_encoding == PositionEncoding::UTF8CodeUnitOffsetFromLineStart
                    &&& document_content(files@[k].text@, occurrences_view(d.occurrences@), symbols_view(d.symbols@))
                },
        decreases files@.len() - i,
    {
        let f = &files[i];
        let doc = build_document(f.relative_path.as_str(), f.text.as_str());
        documents.push(doc);
        i += 1;
    }
    Index {
        metadata: Metadata {
            tool_info: ToolInfo { name: TOOL_NAME.to_owned(), version: TOOL_VERSION.to_owned(), arguments: Vec::new() },
            project_root: project_root.to_owned(),
            text_document_encoding: TextEncoding::UTF8,
        },
        documents,
        external_symbols: Vec::new(),
    }
}

/// Do the diagnostics of `text` convert back in order?
fn text_diagnostics_convert_in_order(text: &str) -> (r: bool)
    requires
        text.spec_bytes().len() <= u32::MAX,
    ensures
        r == text_diagnostics_in_order(text@),
{
    let parsed = Makefile::parse(text);
    let diags = get_diagnostics(text, &parsed);
    diagnostics_convert_in_order(text, &diags)
}

/// Build the SCIP index, or `None` where a diagnostic of some file has a
/// range that does not convert back in order (where `build_index`
/// panics).
#[verifier::rlimit(40)]
pub fn build_index_checked(project_root: &str, files: &[SourceFile]) -> (r: Option<Index>)
    requires
        forall|k: int| 0 <= k < files@.len() ==> utf8((#[trigger] files@[k]).text@).len() <= i32::MAX,
    ensures
        match r {
            Some(index) => (forall|k: int| 0 <= k < files@.len() ==> text_diagnostics_in_order((#[trigger] files@[k]).text@))
                && index.metadata.project_root@ == project_root@ && index.external_symbols@.len() == 0
                && index.documents@.len() == files@.len() && forall|k: int|
                0 <= k < files@.len() ==> {
                    let d = #[trigger] index.documents@[k];
                    &&& d.language@ == "makefile"@
                    &&& d.relative_path@ == files@[k].relative_path@
                    &&& document_content(files@[k].text@, occurrences_view(d.occurrences@), symbols_view(d.symbols@))
                },
            None => exists|k: int| 0 <= k < files@.len() && !text_diagnostics_in_order((#[trigger] files@[k]).text@),
        },
{
    let mut i: usize = 0;
    while i < files.len()
        invariant
            i <= files@.len(),
            forall|k: int| 0 <= k < files@.len() ==> utf8((#[trigger] files@[k]).text@).len() <= i32::MAX,
            forall|k: int| 0 <= k < i ==> text_diagnostics_in_order((#[trigger] files@[k]).text@),
        decreases files@.len() - i,
    {
        assert(utf8(files@[i as int].text@).len() <= i32::MAX);
        if !text_diagnostics_convert_in_order(files[i].text.as_str()) {
            assert(!text_diagnostics_in_order(files@[i as int].text@));
            return None;
        }
        i += 1;
    }
    Some(build_index(project_root, files))
}

} // verus!
