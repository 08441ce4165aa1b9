//! Completion for Makefiles: what to offer at a position, and the text
//! scanning it relies on.

use vstd::prelude::*;
use vstd::string::StringSliceAdditionalSpecFns;
use vstd::utf8::*;

use crate::builtins::{
    automatic_variable_variants, automatic_variables, builtin_functions, builtin_variable_docs, find_automatic_variable,
    lookup_doc, pairs_view, spec_automatic_doc, spec_automatic_variable_variants, spec_automatic_variables,
    spec_builtin_functions, spec_builtin_variable_docs, spec_special_targets, special_targets, strs_view,
    BuiltinFunctionSpec,
};
use crate::document_links::last_byte_index;
use crate::editing::{line_range, nth_line};
use crate::hover::{join, join_strs};
use crate::makefile::{lossless_is_in_prerequisites, Makefile, MakefileView, RuleView, VariableDefinitionView};
use crate::goto::spec_is_in_prerequisites;
use crate::position::{last_line_start, spec_position_to_offset, try_position_to_offset, Position, NEWLINE};
use crate::strs::{bytes_contain, contains_string, lemma_boundary_after_ascii, lemma_boundary_at_ascii, push_str, str_eq, strings_view, substr, utf8};

verus! {

broadcast use {vstd::utf8::encode_utf8_valid_utf8, vstd::utf8::encode_utf8_decode_utf8};

/// The UTF-8 encoding of a Unicode `White_Space` character starts at byte
/// `p` of `bs` (what `char::is_whitespace` accepts): tab, line feed, vertical
/// tab, form feed, carriage return, space, U+0085, U+00A0, U+1680,
/// U+2000..U+200A, U+2028, U+2029, U+202F, U+205F and U+3000.
pub open spec fn whitespace_at(bs: Seq<u8>, p: int) -> bool {
    0 <= p < bs.len() && {
        let b0 = bs[p];
        ||| (0x09 <= b0 <= 0x0d) || b0 == 0x20
        ||| b0 == 0xc2 && p + 1 < bs.len() && (bs[p + 1] == 0x85 || bs[p + 1] == 0xa0)
        ||| b0 == 0xe1 && p + 2 < bs.len() && bs[p + 1] == 0x9a && bs[p + 2] == 0x80
        ||| b0 == 0xe2 && p + 2 < bs.len() && bs[p + 1] == 0x80 && ((0x80 <= bs[p + 2] <= 0x8a)
            || bs[p + 2] == 0xa8 || bs[p + 2] == 0xa9 || bs[p + 2] == 0xaf)
        ||| b0 == 0xe2 && p + 2 < bs.len() && bs[p + 1] == 0x81 && bs[p + 2] == 0x9f
        ||| b0 == 0xe3 && p + 2 < bs.len() && bs[p + 1] == 0x80 && bs[p + 2] == 0x80
    }
}

/// The number of bytes of the whitespace character at `p`.
pub open spec fn whitespace_width(bs: Seq<u8>, p: int) -> int {
    if bs[p] < 0x80 {
        1
    } else if bs[p] == 0xc2 {
        2
    } else {
        3
    }
}

fn whitespace_at_exec(bs: &[u8], p: usize) -> (r: bool)
    ensures
        r == whitespace_at(bs@, p as int),
{
    if p >= bs.len() {
        return false;
    }
    let b0 = bs[p];
    if (0x09 <= b0 && b0 <= 0x0d) || b0 == 0x20 {
        return true;
    }
    let n = bs.len();
    if b0 == 0xc2 {
        return p + 1 < n && (bs[p + 1] == 0x85 || bs[p + 1] == 0xa0);
    }
    if n - p <= 2 {
        return false;
    }
    let b1 = bs[p + 1];
    let b2 = bs[p + 2];
    (b0 == 0xe1 && b1 == 0x9a && b2 == 0x80) || (b0 == 0xe2 && b1 == 0x80 && ((0x80 <= b2 && b2 <= 0x8a)
        || b2 == 0xa8 || b2 == 0xa9 || b2 == 0xaf)) || (b0 == 0xe2 && b1 == 0x81 && b2 == 0x9f) || (b0
        == 0xe3 && b1 == 0x80 && b2 == 0x80)
}

/// Start of the text after the leading whitespace characters of `bs[p..]`.
pub open spec fn trim_start_from(bs: Seq<u8>, p: int) -> int
    decreases bs.len() - p,
{
    if p < 0 || p >= bs.len() || !whitespace_at(bs, p) {
        p
    } else {
        trim_start_from(bs, p + whitespace_width(bs, p))
    }
}

proof fn lemma_trim_start_bounds(bs: Seq<u8>, p: int)
    requires
        0 <= p <= bs.len(),
    ensures
        p <= trim_start_from(bs, p) <= bs.len(),
    decreases bs.len() - p,
{
    if p < bs.len() && whitespace_at(bs, p) {
        lemma_trim_start_bounds(bs, p + whitespace_width(bs, p));
    }
}

/// The last character position in `[lo, hi)` of `bs` (a byte that is not a
/// continuation byte) that satisfies `whitespace_at`, or, when `colon`, is a
/// `:`.
pub open spec fn last_separator(bs: Seq<u8>, lo: int, hi: int, colon: bool) -> Option<int>
    decreases hi - lo,
{
    if hi <= lo {
        None
    } else {
        let p = hi - 1;
        if !is_continuation_byte(bs[p]) && (whitespace_at(bs, p) || (colon && bs[p] == 0x3a)) {
            Some(p)
        } else {
            last_separator(bs, lo, p, colon)
        }
    }
}

proof fn lemma_last_separator_bounds(bs: Seq<u8>, lo: int, hi: int, colon: bool)
    ensures
        last_separator(bs, lo, hi, colon) matches Some(p) ==> lo <= p < hi,
    decreases hi - lo,
{
    if hi > lo {
        lemma_last_separator_bounds(bs, lo, hi - 1, colon);
    }
}

fn last_separator_exec(bs: &[u8], lo: usize, hi: usize, colon: bool) -> (r: Option<usize>)
    requires
        lo <= hi <= bs@.len(),
    ensures
        match r {
            Some(p) => last_separator(bs@, lo as int, hi as int, colon) == Some(p as int),
            None => last_separator(bs@, lo as int, hi as int, colon) is None,
        },
{
    let mut h = hi;
    while h > lo
        invariant
            lo <= h <= hi <= bs@.len(),
            last_separator(bs@, lo as int, hi as int, colon) == last_separator(bs@, lo as int, h as int, colon),
        decreases h - lo,
    {
        let p = h - 1;
        let cont = 0x80 <= bs[p] && bs[p] <= 0xbf;
        if !cont && (whitespace_at_exec(bs, p) || (colon && bs[p] == 0x3a)) {
            return Some(p);
        }
        h = p;
    }
    None
}

/// The include keywords, tried in order.
pub open spec fn include_keywords() -> Seq<Seq<u8>> {
    seq![
        seq![0x69u8, 0x6e, 0x63, 0x6c, 0x75, 0x64, 0x65],
        seq![0x2du8, 0x69, 0x6e, 0x63, 0x6c, 0x75, 0x64, 0x65],
        seq![0x73u8, 0x69, 0x6e, 0x63, 0x6c, 0x75, 0x64, 0x65],
    ]
}

/// `kw` followed by a space starts at byte `p` of `bs`.
pub open spec fn keyword_at(bs: Seq<u8>, p: int, kw: Seq<u8>) -> bool {
    p + kw.len() < bs.len() && bs.subrange(p, p + kw.len()) == kw && bs[p + kw.len()] == 0x20
}

/// If `line` is an `include`, `-include` or `sinclude` directive (after
/// leading whitespace, the keyword and a space), the byte offset where its
/// last path argument begins: just after the last whitespace character
/// after the keyword, or right after the keyword.
pub open spec fn spec_include_path_start(bs: Seq<u8>) -> Option<int> {
    let ts = trim_start_from(bs, 0);
    let kws = include_keywords();
    let k = if keyword_at(bs, ts, kws[0]) {
        0int
    } else if keyword_at(bs, ts, kws[1]) {
        1
    } else if keyword_at(bs, ts, kws[2]) {
        2
    } else {
        3
    };
    if k == 3 {
        None
    } else {
        let after = ts + kws[k].len();
        match last_separator(bs, after, bs.len() as int, false) {
            Some(p) => Some(p + 1),
            None => Some(after),
        }
    }
}

fn keyword_at_exec(bs: &[u8], p: usize, kw: &[u8]) -> (r: bool)
    requires
        p <= bs@.len(),
    ensures
        r == keyword_at(bs@, p as int, kw@),
{
    if kw.len() >= bs.len() - p {
        return false;
    }
    let mut k: usize = 0;
    let n = bs.len();
    while k < kw.len()
        invariant
            n == bs@.len(),
            k <= kw@.len(),
            p + kw@.len() < bs@.len(),
            forall|m: int| 0 <= m < k ==> bs@[p + m] == kw@[m],
        decreases kw@.len() - k,
    {
        if bs[p + k] != kw[k] {
            assert(bs@.subrange(p as int, p + kw@.len())[k as int] != kw@[k as int]);
            return false;
        }
        k += 1;
    }
    assert(bs@.subrange(p as int, p + kw@.len()) =~= kw@);
    bs[p + kw.len()] == 0x20
}

/// If `line` is an `include`/`-include`/`sinclude` directive, return the
/// byte offset within the line where the (last) path argument begins.
pub fn include_path_start(line: &str) -> (r: Option<usize>)
    ensures
        match r {
            Some(k) => spec_include_path_start(line.spec_bytes()) == Some(k as int),
            None => spec_include_path_start(line.spec_bytes()) is None,
        },
{
    let bs = line.as_bytes();
    let n = bs.len();
    let mut ts: usize = 0;
    while ts < bs.len() && whitespace_at_exec(bs, ts)
        invariant
            n == bs@.len(),
            ts <= bs@.len(),
            trim_start_from(bs@, 0) == trim_start_from(bs@, ts as int),
        decreases bs@.len() - ts,
    {
        let w: usize = if bs[ts] < 0x80 { 1 } else if bs[ts] == 0xc2 { 2 } else { 3 };
        assert(ts + w <= bs@.len());
        proof {
            lemma_trim_start_bounds(bs@, ts + w);
        }
        ts = ts + w;
    }
    let kw0: [u8; 7] = [0x69, 0x6e, 0x63, 0x6c, 0x75, 0x64, 0x65];
    let kw1: [u8; 8] = [0x2d, 0x69, 0x6e, 0x63, 0x6c, 0x75, 0x64, 0x65];
    let kw2: [u8; 8] = [0x73, 0x69, 0x6e, 0x63, 0x6c, 0x75, 0x64, 0x65];
    assert(kw0@ =~= include_keywords()[0]);
    assert(kw1@ =~= include_keywords()[1]);
    assert(kw2@ =~= include_keywords()[2]);
    let len: usize = if keyword_at_exec(bs, ts, kw0.as_slice()) {
        7
    } else if keyword_at_exec(bs, ts, kw1.as_slice()) {
        8
    } else if keyword_at_exec(bs, ts, kw2.as_slice()) {
        8
    } else {
        return None;
    };
    assert(ts + len < n);
    let after = ts + len;
    proof {
        lemma_last_separator_bounds(bs@, after as int, n as int, false);
    }
    match last_separator_exec(bs, after, bs.len(), false) {
        Some(p) => Some(p + 1),
        None => Some(after),
    }
}

/// Start of the partial word that ends at byte `offset`: just after the
/// last whitespace character or `:` of its line before it, or the start of
/// the line.
pub open spec fn partial_word_start(bs: Seq<u8>, offset: int) -> int {
    let ls = last_line_start(bs.subrange(0, offset));
    match last_separator(bs, ls, offset, true) {
        Some(p) => p + 1,
        None => ls,
    }
}

/// Return the partial word ending at `byte_offset`: everything from the last
/// whitespace or `:` of its line through `byte_offset`.
pub fn partial_word_before(source_text: &str, byte_offset: usize) -> (r: &str)
    requires
        byte_offset <= source_text.spec_bytes().len(),
        is_char_boundary(source_text.spec_bytes(), byte_offset as int),
        is_char_boundary(source_text.spec_bytes(), partial_word_start(source_text.spec_bytes(), byte_offset as int)),
    ensures
        r.spec_bytes() == source_text.spec_bytes().subrange(
            partial_word_start(source_text.spec_bytes(), byte_offset as int),
            byte_offset as int,
        ),
{
    let bs = source_text.as_bytes();
    let ghost b = bs@;
    let n = bs.len();
    let mut ls = byte_offset;
    while ls > 0 && bs[ls - 1] != NEWLINE
        invariant
            ls <= byte_offset <= b.len(),
            bs@ == b,
            last_line_start(b.subrange(0, byte_offset as int)) == last_line_start(b.subrange(0, ls as int)),
        decreases ls,
    {
        assert(b.subrange(0, ls as int).drop_last() =~= b.subrange(0, ls - 1));
        ls -= 1;
    }
    if ls > 0 {
        assert(b.subrange(0, ls as int).last() == NEWLINE);
    }
    proof {
        lemma_last_separator_bounds(b, ls as int, byte_offset as int, true);
    }
    let start = match last_separator_exec(bs, ls, byte_offset, true) {
        Some(p) => p + 1,
        None => ls,
    };
    substr(source_text, start, byte_offset)
}

/// `s` starts with `prefix`, byte for byte.
pub open spec fn bytes_start_with(s: Seq<u8>, prefix: Seq<u8>) -> bool {
    prefix.len() <= s.len() && s.subrange(0, prefix.len() as int) == prefix
}

/// `s` ends with `suffix`, byte for byte.
pub open spec fn bytes_end_with(s: Seq<u8>, suffix: Seq<u8>) -> bool {
    suffix.len() <= s.len() && s.subrange(s.len() - suffix.len(), s.len() as int) == suffix
}

fn starts_with(s: &str, prefix: &str) -> (r: bool)
    ensures
        r == bytes_start_with(s.spec_bytes(), prefix.spec_bytes()),
{
    let a = s.as_bytes();
    let b = prefix.as_bytes();
    if b.len() > a.len() {
        return false;
    }
    let head = vstd::slice::slice_subrange(a, 0, b.len());
    crate::strs::bytes_eq(head, b)
}

fn ends_with(s: &str, suffix: &str) -> (r: bool)
    ensures
        r == bytes_end_with(s.spec_bytes(), suffix.spec_bytes()),
{
    let a = s.as_bytes();
    let b = suffix.as_bytes();
    if b.len() > a.len() {
        return false;
    }
    let tail = vstd::slice::slice_subrange(a, a.len() - b.len(), a.len());
    crate::strs::bytes_eq(tail, b)
}

/// Common Makefile fragment naming patterns, used to rank include
/// completions: `*.mk`, `*.make`, `Makefile.*`, `makefile.*`, `Makefile`,
/// `makefile` and `GNUmakefile`.
pub open spec fn spec_is_makefile_fragment(name: Seq<char>) -> bool {
    let bs = crate::strs::utf8(name);
    ||| bytes_end_with(bs, crate::strs::utf8(".mk"@))
    ||| bytes_end_with(bs, crate::strs::utf8(".make"@))
    ||| bytes_start_with(bs, crate::strs::utf8("Makefile."@))
    ||| bytes_start_with(bs, crate::strs::utf8("makefile."@))
    ||| name == "Makefile"@
    ||| name == "makefile"@
    ||| name == "GNUmakefile"@
}

/// Common Makefile fragment naming patterns, used to rank include
/// completions.
pub fn is_makefile_fragment(name: &str) -> (r: bool)
    ensures
        r == spec_is_makefile_fragment(name@),
{
    ends_with(name, ".mk") || ends_with(name, ".make") || starts_with(name, "Makefile.") || starts_with(
        name,
        "makefile.",
    ) || crate::strs::str_eq(name, "Makefile") || crate::strs::str_eq(name, "makefile")
        || crate::strs::str_eq(name, "GNUmakefile")
}


/// The width of the whitespace character that ends at byte `e` of `bs`,
/// when it starts at or after `lo`.
pub open spec fn whitespace_ending_at(bs: Seq<u8>, lo: int, e: int) -> Option<int> {
    if e - 1 >= lo && whitespace_at(bs, e - 1) && bs[e - 1] < 0x80 {
        Some(1)
    } else if e - 2 >= lo && whitespace_at(bs, e - 2) && bs[e - 2] == 0xc2 {
        Some(2)
    } else if e - 3 >= lo && whitespace_at(bs, e - 3) && bs[e - 3] >= 0xe0 {
        Some(3)
    } else {
        None
    }
}

/// End of `bs[lo..e]` without its trailing whitespace characters.
pub open spec fn trim_end_to(bs: Seq<u8>, lo: int, e: int) -> int
    decreases e - lo,
{
    if e <= lo {
        e
    } else {
        match whitespace_ending_at(bs, lo, e) {
            Some(w) => trim_end_to(bs, lo, e - w),
            None => e,
        }
    }
}

/// The bytes of `s` without its leading and trailing whitespace, as
/// `str::trim` leaves them.
pub open spec fn trimmed(bs: Seq<u8>) -> Seq<u8> {
    let ts = trim_start_from(bs, 0);
    bs.subrange(ts, trim_end_to(bs, ts, bs.len() as int))
}

/// Stepping over the character that starts at boundary `p` of valid UTF-8
/// lands on the next boundary.
proof fn lemma_boundary_step(bs: Seq<u8>, p: int)
    requires
        valid_utf8(bs),
        is_char_boundary(bs, p),
        0 <= p < bs.len(),
    ensures
        ({
            let l = length_of_first_scalar(bs.subrange(p, bs.len() as int));
            &&& bs.subrange(p, bs.len() as int)[0] == bs[p]
            &&& 1 <= l
            &&& p + l <= bs.len()
            &&& is_char_boundary(bs, p + l)
        }),
{
    let tail = bs.subrange(p, bs.len() as int);
    valid_utf8_split(bs, p);
    assert(valid_utf8(tail));
    assert(valid_first_scalar(tail));
    let l = length_of_first_scalar(tail);
    let rest = pop_first_scalar(tail);
    assert(valid_utf8(rest));
    if p + l == bs.len() {
        is_char_boundary_start_end_of_seq(bs);
    } else {
        assert(rest.len() > 0);
        assert(valid_first_scalar(rest));
        assert(rest[0] == bs[p + l]);
        is_char_boundary_iff_not_is_continuation_byte(bs, p + l);
    }
}

/// A whitespace character of valid UTF-8 starts on a boundary.
proof fn lemma_whitespace_on_boundary(bs: Seq<u8>, p: int)
    requires
        valid_utf8(bs),
        whitespace_at(bs, p),
    ensures
        is_char_boundary(bs, p),
{
    is_char_boundary_iff_not_is_continuation_byte(bs, p);
}

/// Where the leading whitespace of valid UTF-8 `bs` ends, a boundary.
fn trim_start_index(bs: &[u8]) -> (ts: usize)
    requires
        valid_utf8(bs@),
    ensures
        ts as int == trim_start_from(bs@, 0),
        ts <= bs@.len(),
        is_char_boundary(bs@, ts as int),
{
    let mut ts: usize = 0;
    proof {
        is_char_boundary_start_end_of_seq(bs@);
    }
    while ts < bs.len() && whitespace_at_exec(bs, ts)
        invariant
            ts <= bs@.len(),
            valid_utf8(bs@),
            is_char_boundary(bs@, ts as int),
            trim_start_from(bs@, 0) == trim_start_from(bs@, ts as int),
        decreases bs@.len() - ts,
    {
        let w: usize = if bs[ts] < 0x80 { 1 } else if bs[ts] == 0xc2 { 2 } else { 3 };
        proof {
            lemma_boundary_step(bs@, ts as int);
        }
        assert(w == length_of_first_scalar(bs@.subrange(ts as int, bs@.len() as int)));
        ts = ts + w;
    }
    ts
}

/// Where `bs[lo..]` ends once its trailing whitespace is dropped, a
/// boundary of valid UTF-8 `bs`.
fn trim_end_index(bs: &[u8], lo: usize) -> (te: usize)
    requires
        valid_utf8(bs@),
        lo <= bs@.len(),
        is_char_boundary(bs@, lo as int),
    ensures
        te as int == trim_end_to(bs@, lo as int, bs@.len() as int),
        lo <= te <= bs@.len(),
        is_char_boundary(bs@, te as int),
{
    let mut e = bs.len();
    proof {
        is_char_boundary_start_end_of_seq(bs@);
    }
    while e > lo
        invariant
            lo <= e <= bs@.len(),
            valid_utf8(bs@),
            is_char_boundary(bs@, e as int),
            trim_end_to(bs@, lo as int, bs@.len() as int) == trim_end_to(bs@, lo as int, e as int),
        decreases e - lo,
    {
        let w: usize = if whitespace_at_exec(bs, e - 1) && bs[e - 1] < 0x80 {
            1
        } else if e - lo >= 2 && whitespace_at_exec(bs, e - 2) && bs[e - 2] == 0xc2 {
            2
        } else if e - lo >= 3 && whitespace_at_exec(bs, e - 3) && bs[e - 3] >= 0xe0 {
            3
        } else {
            0
        };
        if w == 0 {
            assert(whitespace_ending_at(bs@, lo as int, e as int) is None);
            return e;
        }
        proof {
            lemma_whitespace_on_boundary(bs@, e - w);
        }
        e = e - w;
    }
    e
}

/// `str::trim`: `s` without leading and trailing Unicode whitespace.
pub(crate) fn trim(s: &str) -> (r: &str)
    ensures
        r.spec_bytes() == trimmed(s.spec_bytes()),
{
    let bs = s.as_bytes();
    proof {
        encode_utf8_valid_utf8(s@);
    }
    let ts = trim_start_index(bs);
    let te = trim_end_index(bs, ts);
    substr(s, ts, te)
}

/// Index of the first whitespace character at or after `p`, or the length.
pub open spec fn next_whitespace(bs: Seq<u8>, p: int) -> int
    decreases bs.len() - p,
{
    if p < 0 || p >= bs.len() || whitespace_at(bs, p) {
        p
    } else {
        next_whitespace(bs, p + 1)
    }
}

/// The byte range of the first whitespace-separated word of `bs`, if any.
pub open spec fn first_word_range(bs: Seq<u8>) -> Option<(int, int)> {
    let ts = trim_start_from(bs, 0);
    if ts >= bs.len() {
        None
    } else {
        Some((ts, next_whitespace(bs, ts)))
    }
}

/// `str::split_whitespace` followed by `next`: the first word of `s`,
/// separated by Unicode whitespace, if any.
pub(crate) fn first_word(s: &str) -> (r: Option<&str>)
    ensures
        match r {
            Some(w) => first_word_range(s.spec_bytes()) matches Some((a, b)) && w.spec_bytes()
                == s.spec_bytes().subrange(a, b),
            None => first_word_range(s.spec_bytes()) is None,
        },
{
    let bs = s.as_bytes();
    proof {
        encode_utf8_valid_utf8(s@);
    }
    let ts = trim_start_index(bs);
    if ts >= bs.len() {
        return None;
    }
    let mut p = ts;
    while p < bs.len() && !whitespace_at_exec(bs, p)
        invariant
            ts <= p <= bs@.len(),
            next_whitespace(bs@, ts as int) == next_whitespace(bs@, p as int),
        decreases bs@.len() - p,
    {
        p = p + 1;
    }
    proof {
        if p < bs@.len() {
            lemma_whitespace_on_boundary(bs@, p as int);
        } else {
            is_char_boundary_start_end_of_seq(bs@);
        }
    }
    Some(substr(s, ts, p))
}

// ---- Completion items ----

/// The kind of a completion item.
#[derive(Debug, Clone, Copy, PartialEq, Eq, Structural)]
pub enum CompletionItemKind {
    Keyword,
    Variable,
    Function,
    Reference,
    File,
    Folder,
}

/// Something offered for completion.
pub struct CompletionItem {
    pub label: String,
    pub kind: Option<CompletionItemKind>,
    pub detail: Option<String>,
    pub insert_text: Option<String>,
    /// The text clients sort by, where it differs from the label.
    pub sort_text: Option<String>,
}

pub struct CompletionItemView {
    pub label: Seq<char>,
    pub kind: Option<CompletionItemKind>,
    pub detail: Option<Seq<char>>,
    pub insert_text: Option<Seq<char>>,
    pub sort_text: Option<Seq<char>>,
}

pub open spec fn opt_view(o: Option<String>) -> Option<Seq<char>> {
    match o {
        Some(s) => Some(s@),
        None => None,
    }
}

impl View for CompletionItem {
    type V = CompletionItemView;

    open spec fn view(&self) -> CompletionItemView {
        CompletionItemView {
            label: self.label@,
            kind: self.kind,
            detail: opt_view(self.detail),
            insert_text: opt_view(self.insert_text),
            sort_text: opt_view(self.sort_text),
        }
    }
}

pub open spec fn items_view(v: Seq<CompletionItem>) -> Seq<CompletionItemView> {
    v.map_values(|i: CompletionItem| i@)
}

/// An item without sort text.
pub open spec fn item(label: Seq<char>, kind: CompletionItemKind, detail: Option<Seq<char>>, insert: Seq<char>) -> CompletionItemView {
    CompletionItemView { label, kind: Some(kind), detail, insert_text: Some(insert), sort_text: None }
}

fn make_item(label: String, kind: CompletionItemKind, detail: Option<String>, insert: String) -> (r: CompletionItem)
    ensures
        r@ == item(label@, kind, opt_view(detail), insert@),
{
    CompletionItem { label, kind: Some(kind), detail, insert_text: Some(insert), sort_text: None }
}

/// `a` followed by `b`, as a new string.
fn concat(a: &str, b: &str) -> (s: String)
    ensures
        s@ == a@ + b@,
{
    let mut s = String::new();
    push_str(&mut s, a);
    push_str(&mut s, b);
    s
}

/// Appends `item` to the items.
fn push_item(out: &mut Vec<CompletionItem>, it: CompletionItem)
    ensures
        items_view(final(out)@) == items_view(old(out)@).push(it@),
{
    let ghost before = items_view(out@);
    out.push(it);
    assert(items_view(out@) =~= before.push(it@));
}

/// Some rule has the target `t`.
pub open spec fn any_rule_has_target(rules: Seq<RuleView>, t: Seq<char>) -> bool {
    exists|i: int| 0 <= i < rules.len() && #[trigger] rules[i].targets.contains(t)
}

/// The special targets of `specials` that no rule has yet, as keywords.
pub open spec fn target_items(rules: Seq<RuleView>, specials: Seq<(Seq<char>, Seq<char>)>) -> Seq<CompletionItemView>
    decreases specials.len(),
{
    if specials.len() == 0 {
        seq![]
    } else {
        let (name, desc) = specials.last();
        target_items(rules, specials.drop_last()) + if any_rule_has_target(rules, name) {
            seq![]
        } else {
            seq![item(name, CompletionItemKind::Keyword, Some(desc), name + ": "@)]
        }
    }
}

fn any_rule_has_target_exec(makefile: &Makefile, t: &str) -> (r: bool)
    ensures
        r == any_rule_has_target(makefile@.rules, t@),
{
    let ghost rules = makefile@.rules;
    let mut i: usize = 0;
    while i < makefile.rules.len()
        invariant
            i <= makefile.rules@.len(),
            rules == makefile@.rules,
            forall|j: int| 0 <= j < i ==> !(#[trigger] rules[j].targets.contains(t@)),
        decreases makefile.rules@.len() - i,
    {
        assert(rules[i as int] == makefile.rules@[i as int]@);
        if contains_string(&makefile.rules[i].targets, t) {
            assert(rules[i as int].targets.contains(t@));
            return true;
        }
        i += 1;
    }
    false
}

/// Generate target name completions: the special targets that no rule
/// defines yet.
pub fn get_target_completions(makefile: &Makefile) -> (r: Vec<CompletionItem>)
    ensures
        items_view(r@) == target_items(makefile@.rules, spec_special_targets()),
{
    let table = special_targets();
    let ghost t = spec_special_targets();
    let mut out: Vec<CompletionItem> = Vec::new();
    let mut i: usize = 0;
    while i < table.len()
        invariant
            i <= table@.len(),
            crate::builtins::pairs_view(table@) == t,
            items_view(out@) == target_items(makefile@.rules, t.subrange(0, i as int)),
        decreases table@.len() - i,
    {
        let (name, desc) = table[i];
        assert(t[i as int] == (name@, desc@));
        assert(t.subrange(0, i + 1).drop_last() =~= t.subrange(0, i as int));
        if !any_rule_has_target_exec(makefile, name) {
            let it = make_item(name.to_owned(), CompletionItemKind::Keyword, Some(desc.to_owned()), concat(name, ": "));
            push_item(&mut out, it);
        }
        assert(items_view(out@) =~= target_items(makefile@.rules, t.subrange(0, i + 1)));
        i += 1;
    }
    assert(t.subrange(0, i as int) =~= t);
    out
}

/// `= value`, the value trimmed, for a definition's raw value.
pub open spec fn value_detail(raw: Option<Seq<char>>) -> Option<Seq<char>> {
    match raw {
        Some(v) => Some("= "@ + decode_utf8(trimmed(utf8(v)))),
        None => None,
    }
}

fn value_detail_exec(raw: &Option<String>) -> (r: Option<String>)
    ensures
        opt_view(r) == value_detail(opt_view(*raw)),
{
    match raw {
        Some(v) => Some(concat("= ", trim(v.as_str()))),
        None => None,
    }
}

/// The named variable definitions, with `name = ` to insert.
pub open spec fn variable_items(vars: Seq<VariableDefinitionView>) -> Seq<CompletionItemView>
    decreases vars.len(),
{
    if vars.len() == 0 {
        seq![]
    } else {
        let v = vars.last();
        variable_items(vars.drop_last()) + match v.name {
            Some(n) => seq![item(n, CompletionItemKind::Variable, value_detail(v.raw_value), n + " = "@)],
            None => seq![],
        }
    }
}

/// Generate variable name completions from variables defined in the file.
pub fn get_variable_completions(makefile: &Makefile) -> (r: Vec<CompletionItem>)
    ensures
        items_view(r@) == variable_items(makefile@.variables),
{
    let ghost vars = makefile@.variables;
    let mut out: Vec<CompletionItem> = Vec::new();
    let mut i: usize = 0;
    while i < makefile.variables.len()
        invariant
            i <= makefile.variables@.len(),
            vars == makefile@.variables,
            items_view(out@) == variable_items(vars.subrange(0, i as int)),
        decreases makefile.variables@.len() - i,
    {
        let v = &makefile.variables[i];
        assert(vars[i as int] == v@);
        assert(vars.subrange(0, i + 1).drop_last() =~= vars.subrange(0, i as int));
        if let Some(name) = &v.name {
            let it = make_item(
                name.clone(),
                CompletionItemKind::Variable,
                value_detail_exec(&v.raw_value),
                concat(name.as_str(), " = "),
            );
            push_item(&mut out, it);
        }
        assert(items_view(out@) =~= variable_items(vars.subrange(0, i + 1)));
        i += 1;
    }
    assert(vars.subrange(0, i as int) =~= vars);
    out
}

/// The documentation of an automatic variable, or nothing.
pub open spec fn doc_or_empty(v: Seq<char>) -> Seq<char> {
    match spec_automatic_doc(v) {
        Some(d) => d,
        None => ""@,
    }
}

/// The automatic variables, `$@` inserting `@`, then their `D`/`F` variants,
/// `$(@D)` inserting `(@D)`.
pub open spec fn automatic_items() -> Seq<CompletionItemView> {
    spec_automatic_variables().map_values(
        |p: (Seq<char>, Seq<char>)| item("$"@ + p.0, CompletionItemKind::Variable, Some(p.1), p.0),
    ) + spec_automatic_variable_variants().map_values(
        |v: Seq<char>| item("$("@ + v + ")"@, CompletionItemKind::Variable, Some(doc_or_empty(v)), "("@ + v + ")"@),
    )
}

/// Generate automatic variable completions for use after `$`.
pub fn get_automatic_variable_completions() -> (r: Vec<CompletionItem>)
    ensures
        items_view(r@) == automatic_items(),
{
    let singles = automatic_variables();
    let ghost a = spec_automatic_variables();
    let mut out: Vec<CompletionItem> = Vec::new();
    let mut i: usize = 0;
    while i < singles.len()
        invariant
            i <= singles@.len(),
            crate::builtins::pairs_view(singles@) == a,
            items_view(out@) == a.subrange(0, i as int).map_values(
                |p: (Seq<char>, Seq<char>)| item("$"@ + p.0, CompletionItemKind::Variable, Some(p.1), p.0),
            ),
        decreases singles@.len() - i,
    {
        let (name, doc) = singles[i];
        assert(a[i as int] == (name@, doc@));
        let it = make_item(concat("$", name), CompletionItemKind::Variable, Some(doc.to_owned()), name.to_owned());
        push_item(&mut out, it);
        assert(items_view(out@) =~= a.subrange(0, i + 1).map_values(
            |p: (Seq<char>, Seq<char>)| item("$"@ + p.0, CompletionItemKind::Variable, Some(p.1), p.0),
        ));
        i += 1;
    }
    assert(a.subrange(0, i as int) =~= a);
    let ghost mid = items_view(out@);
    let variants = automatic_variable_variants();
    let ghost w = spec_automatic_variable_variants();
    let mut j: usize = 0;
    while j < variants.len()
        invariant
            j <= variants@.len(),
            strs_view(variants@) == w,
            items_view(out@) == mid + w.subrange(0, j as int).map_values(
                |v: Seq<char>| item("$("@ + v + ")"@, CompletionItemKind::Variable, Some(doc_or_empty(v)), "("@ + v + ")"@),
            ),
        decreases variants@.len() - j,
    {
        let v = variants[j];
        assert(w[j as int] == v@);
        let doc = match find_automatic_variable(v) {
            Some(d) => d,
            None => "",
        };
        proof {
            reveal_strlit("");
        }
        let mut label = concat("$(", v);
        push_str(&mut label, ")");
        let mut insert = concat("(", v);
        push_str(&mut insert, ")");
        let it = make_item(label, CompletionItemKind::Variable, Some(doc.to_owned()), insert);
        push_item(&mut out, it);
        assert(items_view(out@) =~= mid + w.subrange(0, j + 1).map_values(
            |v: Seq<char>| item("$("@ + v + ")"@, CompletionItemKind::Variable, Some(doc_or_empty(v)), "("@ + v + ")"@),
        ));
        j += 1;
    }
    assert(w.subrange(0, j as int) =~= w);
    out
}

/// The completion of a built-in function: its name, inserting the name and
/// a space, with its signature and description.
pub open spec fn function_item(f: BuiltinFunctionSpec) -> CompletionItemView {
    item(
        f.name,
        CompletionItemKind::Function,
        Some("$("@ + f.name + " "@ + join(f.params, ","@) + "): "@ + f.doc),
        f.name + " "@,
    )
}

/// Generate function completions for use after `$(`.
pub fn get_function_completions() -> (r: Vec<CompletionItem>)
    ensures
        items_view(r@) == spec_builtin_functions().map_values(|f: BuiltinFunctionSpec| function_item(f)),
{
    let fs = builtin_functions();
    let ghost t = spec_builtin_functions();
    let mut out: Vec<CompletionItem> = Vec::new();
    let mut i: usize = 0;
    while i < fs.len()
        invariant
            i <= fs@.len(),
            fs@.map_values(|f: crate::builtins::BuiltinFunction| f@) == t,
            items_view(out@) == t.subrange(0, i as int).map_values(|f: BuiltinFunctionSpec| function_item(f)),
        decreases fs@.len() - i,
    {
        let f = &fs[i];
        assert(t[i as int] == f@);
        let mut detail = concat("$(", f.name);
        push_str(&mut detail, " ");
        let joined = join_strs(&f.params, ",");
        push_str(&mut detail, joined.as_str());
        push_str(&mut detail, "): ");
        push_str(&mut detail, f.doc);
        let it = make_item(f.name.to_owned(), CompletionItemKind::Function, Some(detail), concat(f.name, " "));
        push_item(&mut out, it);
        assert(items_view(out@) =~= t.subrange(0, i + 1).map_values(|f: BuiltinFunctionSpec| function_item(f)));
        i += 1;
    }
    assert(t.subrange(0, i as int) =~= t);
    out
}

/// The labels of the items.
pub open spec fn labels(v: Seq<CompletionItemView>) -> Seq<Seq<char>> {
    v.map_values(|i: CompletionItemView| i.label)
}

/// The items whose label no earlier item has.
pub open spec fn first_by_label(v: Seq<CompletionItemView>) -> Seq<CompletionItemView>
    decreases v.len(),
{
    if v.len() == 0 {
        seq![]
    } else {
        first_by_label(v.drop_last()) + if labels(v.drop_last()).contains(v.last().label) {
            seq![]
        } else {
            seq![v.last()]
        }
    }
}

/// Keeping the first item of each label offers every label of `v`, each
/// exactly once.
pub proof fn lemma_first_by_label_each_label_once(v: Seq<CompletionItemView>)
    ensures
        forall|i: int, j: int|
            0 <= i < j < first_by_label(v).len() ==> #[trigger] first_by_label(v)[i].label != #[trigger] first_by_label(
                v,
            )[j].label,
        forall|x: Seq<char>| #[trigger] labels(v).contains(x) <==> labels(first_by_label(v)).contains(x),
    decreases v.len(),
{
    if v.len() > 0 {
        let p = v.drop_last();
        let last = v.last();
        let rp = first_by_label(p);
        lemma_first_by_label_each_label_once(p);
        assert(labels(v) =~= labels(p).push(last.label));
        if labels(p).contains(last.label) {
            assert(first_by_label(v) =~= rp);
            assert forall|x: Seq<char>| #[trigger] labels(v).contains(x) implies labels(rp).contains(x) by {
                if x != last.label {
                    let k = choose|k: int| 0 <= k < labels(v).len() && labels(v)[k] == x;
                    assert(labels(p)[k] == x);
                }
                assert(labels(p).contains(x));
            }
            assert forall|x: Seq<char>| labels(rp).contains(x) implies #[trigger] labels(v).contains(x) by {
                assert(labels(p).contains(x));
                let k = choose|k: int| 0 <= k < labels(p).len() && labels(p)[k] == x;
                assert(labels(v)[k] == x);
            }
        } else {
            let r = first_by_label(v);
            assert(r =~= rp.push(last));
            assert(labels(r) =~= labels(rp).push(last.label));
            assert(!labels(rp).contains(last.label));
            assert forall|i: int, j: int| 0 <= i < j < r.len() implies #[trigger] r[i].label != #[trigger] r[j].label by {
                if j == r.len() - 1 {
                    assert(labels(rp)[i] == r[i].label);
                }
            }
            assert forall|x: Seq<char>| #[trigger] labels(v).contains(x) implies labels(r).contains(x) by {
                if x == last.label {
                    assert(labels(r)[labels(r).len() - 1] == x);
                } else {
                    let k = choose|k: int| 0 <= k < labels(v).len() && labels(v)[k] == x;
                    assert(labels(p)[k] == x);
                    assert(labels(p).contains(x));
                    assert(labels(rp).contains(x));
                    let m = choose|m: int| 0 <= m < labels(rp).len() && labels(rp)[m] == x;
                    assert(labels(r)[m] == x);
                }
            }
            assert forall|x: Seq<char>| labels(r).contains(x) implies #[trigger] labels(v).contains(x) by {
                let m = choose|m: int| 0 <= m < labels(r).len() && labels(r)[m] == x;
                if m == labels(r).len() - 1 {
                    assert(labels(v)[labels(v).len() - 1] == x);
                } else {
                    assert(labels(rp)[m] == x);
                    assert(labels(p).contains(x));
                    let k = choose|k: int| 0 <= k < labels(p).len() && labels(p)[k] == x;
                    assert(labels(v)[k] == x);
                }
            }
        }
    } else {
        assert(labels(v) =~= Seq::<Seq<char>>::empty());
        assert(labels(first_by_label(v)) =~= Seq::<Seq<char>>::empty());
    }
}

/// Keep the first item for each label.
fn dedup_by_label(items: Vec<CompletionItem>) -> (r: Vec<CompletionItem>)
    ensures
        items_view(r@) == first_by_label(items_view(items@)),
{
    let ghost iv = items_view(items@);
    let n = items.len();
    let mut rest = items;
    let mut out: Vec<CompletionItem> = Vec::new();
    let mut seen: Vec<String> = Vec::new();
    let mut i: usize = 0;
    while rest.len() > 0
        invariant
            i + rest@.len() == iv.len(),
            iv.len() == n,
            items_view(rest@) == iv.subrange(i as int, iv.len() as int),
            strings_view(seen@) == labels(iv.subrange(0, i as int)),
            items_view(out@) == first_by_label(iv.subrange(0, i as int)),
        decreases rest@.len(),
    {
        let ghost old_rest = rest@;
        let it = rest.remove(0);
        assert(rest@ =~= old_rest.subrange(1, old_rest.len() as int));
        assert(items_view(old_rest)[0] == it@);
        assert(iv[i as int] == it@);
        assert forall|k: int| 0 <= k < rest@.len() implies #[trigger] items_view(rest@)[k] == iv[i + 1 + k] by {
            assert(rest@[k] == old_rest[k + 1]);
            assert(items_view(old_rest)[k + 1] == iv[i + 1 + k]);
        }
        assert(items_view(rest@) =~= iv.subrange(i + 1, iv.len() as int));
        let ghost pre = iv.subrange(0, i as int);
        assert(iv.subrange(0, i + 1).drop_last() =~= pre);
        assert(iv.subrange(0, i + 1).last() == it@);
        let dup = contains_string(&seen, it.label.as_str());
        let label = it.label.clone();
        if !dup {
            push_item(&mut out, it);
        }
        let ghost seen_before = strings_view(seen@);
        seen.push(label);
        assert(strings_view(seen@) =~= seen_before.push(label@));
        assert(labels(iv.subrange(0, i + 1)) =~= labels(pre).push(iv[i as int].label));
        assert(items_view(out@) =~= first_by_label(iv.subrange(0, i + 1)));
        i += 1;
    }
    assert(iv.subrange(0, i as int) =~= iv);
    out
}

/// The built-in variables (without documentation) and then the named
/// definitions, each inserting its name and a closing parenthesis.
pub open spec fn reference_candidates(vars: Seq<VariableDefinitionView>) -> Seq<CompletionItemView> {
    spec_builtin_variable_docs().map_values(
        |p: (Seq<char>, Seq<char>)| item(p.0, CompletionItemKind::Variable, Some(p.1), p.0 + ")"@),
    ) + named_reference_items(vars)
}

/// The named definitions, inserting the name and `)`.
pub open spec fn named_reference_items(vars: Seq<VariableDefinitionView>) -> Seq<CompletionItemView>
    decreases vars.len(),
{
    if vars.len() == 0 {
        seq![]
    } else {
        let v = vars.last();
        named_reference_items(vars.drop_last()) + match v.name {
            Some(n) => seq![item(n, CompletionItemKind::Variable, value_detail(v.raw_value), n + ")"@)],
            None => seq![],
        }
    }
}

/// Generate variable reference completions for use after `$(`: well-known
/// built-in variables plus variables defined in the file, each name once.
/// The inserted text closes the parenthesis.
pub fn get_variable_reference_completions(makefile: &Makefile) -> (r: Vec<CompletionItem>)
    ensures
        items_view(r@) == first_by_label(reference_candidates(makefile@.variables)),
{
    let docs = builtin_variable_docs();
    let ghost bn = spec_builtin_variable_docs();
    let mut cands: Vec<CompletionItem> = Vec::new();
    let mut i: usize = 0;
    while i < docs.len()
        invariant
            i <= docs@.len(),
            pairs_view(docs@) == bn,
            items_view(cands@) == bn.subrange(0, i as int).map_values(
                |p: (Seq<char>, Seq<char>)| item(p.0, CompletionItemKind::Variable, Some(p.1), p.0 + ")"@),
            ),
        decreases docs@.len() - i,
    {
        let (n, d) = docs[i];
        assert(bn[i as int] == (n@, d@));
        push_item(&mut cands, make_item(n.to_owned(), CompletionItemKind::Variable, Some(d.to_owned()), concat(n, ")")));
        assert(items_view(cands@) =~= bn.subrange(0, i + 1).map_values(
            |p: (Seq<char>, Seq<char>)| item(p.0, CompletionItemKind::Variable, Some(p.1), p.0 + ")"@),
        ));
        i += 1;
    }
    assert(bn.subrange(0, i as int) =~= bn);
    let ghost mid = items_view(cands@);
    let ghost vars = makefile@.variables;
    assert(mid + named_reference_items(vars.subrange(0, 0)) =~= mid);
    let mut j: usize = 0;
    while j < makefile.variables.len()
        invariant
            j <= makefile.variables@.len(),
            vars == makefile@.variables,
            items_view(cands@) == mid + named_reference_items(vars.subrange(0, j as int)),
        decreases makefile.variables@.len() - j,
    {
        let v = &makefile.variables[j];
        assert(vars[j as int] == v@);
        assert(vars.subrange(0, j + 1).drop_last() =~= vars.subrange(0, j as int));
        if let Some(name) = &v.name {
            let it = make_item(
                name.clone(),
                CompletionItemKind::Variable,
                value_detail_exec(&v.raw_value),
                concat(name.as_str(), ")"),
            );
            push_item(&mut cands, it);
        }
        assert(items_view(cands@) =~= mid + named_reference_items(vars.subrange(0, j + 1)));
        j += 1;
    }
    assert(vars.subrange(0, j as int) =~= vars);
    dedup_by_label(cands)
}

// ---- Filesystem completions ----

/// An entry of a listed directory: its name and whether it is a directory.
pub struct DirEntry {
    pub name: String,
    pub is_dir: bool,
}

/// A partial path split at its last `/`: the directory part and the
/// basename prefix being typed (no directory part without a `/`).
pub open spec fn split_partial(p: Seq<u8>) -> (Seq<u8>, Seq<u8>) {
    match last_byte_index(p, 0x2f) {
        Some(i) => (p.subrange(0, i), p.subrange(i + 1, p.len() as int)),
        None => (seq![], p),
    }
}

/// Split `partial` at its last `/` into the directory part and the
/// basename prefix.
pub fn split_partial_path(partial: &str) -> (r: (&str, &str))
    ensures
        (r.0.spec_bytes(), r.1.spec_bytes()) == split_partial(partial.spec_bytes()),
{
    let bytes = partial.as_bytes();
    let ghost bs = bytes@;
    let mut i = bytes.len();
    assert(bs.subrange(0, i as int) =~= bs);
    while i > 0 && bytes[i - 1] != 0x2f
        invariant
            i <= bs.len(),
            bytes@ == bs,
            last_byte_index(bs, 0x2f) == last_byte_index(bs.subrange(0, i as int), 0x2f),
        decreases i,
    {
        assert(bs.subrange(0, i as int).drop_last() =~= bs.subrange(0, i - 1));
        i -= 1;
    }
    if i == 0 {
        proof {
            is_char_boundary_start_end_of_seq(bs);
        }
        return (substr(partial, 0, 0), partial);
    }
    assert(bs.subrange(0, i as int).last() == 0x2f);
    proof {
        lemma_boundary_at_ascii(bs, i - 1);
        lemma_boundary_after_ascii(bs, i - 1);
        is_char_boundary_start_end_of_seq(bs);
    }
    assert(bs.subrange(0, 0) =~= Seq::<u8>::empty());
    (substr(partial, 0, i - 1), substr(partial, i, bytes.len()))
}

/// The completion of a directory entry listed for `partial`: hidden
/// entries only when the basename prefix starts with a dot; the label is
/// the entry under the directory part, a directory inserting a trailing
/// `/`.
pub open spec fn fs_item(partial: Seq<u8>, name: Seq<char>, is_dir: bool) -> Option<CompletionItemView> {
    let (dir, prefix) = split_partial(partial);
    if utf8(name).len() > 0 && utf8(name)[0] == 0x2e && !(prefix.len() > 0 && prefix[0] == 0x2e) {
        None
    } else {
        let display = if dir.len() == 0 {
            name
        } else {
            decode_utf8(dir) + "/"@ + name
        };
        Some(
            item(
                display,
                if is_dir {
                    CompletionItemKind::Folder
                } else {
                    CompletionItemKind::File
                },
                None,
                if is_dir {
                    display + "/"@
                } else {
                    display
                },
            ),
        )
    }
}

pub open spec fn entries_view(v: Seq<DirEntry>) -> Seq<(Seq<char>, bool)> {
    v.map_values(|e: DirEntry| (e.name@, e.is_dir))
}

/// The completions of the entries, in order.
pub open spec fn fs_items(partial: Seq<u8>, entries: Seq<(Seq<char>, bool)>) -> Seq<CompletionItemView>
    decreases entries.len(),
{
    if entries.len() == 0 {
        seq![]
    } else {
        fs_items(partial, entries.drop_last()) + match fs_item(partial, entries.last().0, entries.last().1) {
            Some(i) => seq![i],
            None => seq![],
        }
    }
}

/// Completions for the entries of the directory that `partial` names
/// (listed by the caller): see `fs_item`.
pub fn filesystem_completions(entries: &Vec<DirEntry>, partial: &str) -> (r: Vec<CompletionItem>)
    ensures
        items_view(r@) == fs_items(partial.spec_bytes(), entries_view(entries@)),
{
    let ghost pb = partial.spec_bytes();
    let ghost ev = entries_view(entries@);
    let (dir_part, basename_prefix) = split_partial_path(partial);
    let pre = basename_prefix.as_bytes();
    let hidden_ok = pre.len() > 0 && pre[0] == 0x2e;
    let mut out: Vec<CompletionItem> = Vec::new();
    let mut i: usize = 0;
    while i < entries.len()
        invariant
            i <= entries@.len(),
            ev == entries_view(entries@),
            pb == partial.spec_bytes(),
            (dir_part.spec_bytes(), basename_prefix.spec_bytes()) == split_partial(pb),
            hidden_ok == (split_partial(pb).1.len() > 0 && split_partial(pb).1[0] == 0x2e),
            items_view(out@) == fs_items(pb, ev.subrange(0, i as int)),
        decreases entries@.len() - i,
    {
        let e = &entries[i];
        assert(ev[i as int] == (e.name@, e.is_dir));
        assert(ev.subrange(0, i + 1).drop_last() =~= ev.subrange(0, i as int));
        let nb = e.name.as_str().as_bytes();
        if !(nb.len() > 0 && nb[0] == 0x2e && !hidden_ok) {
            let display = if dir_part.as_bytes().len() == 0 {
                e.name.clone()
            } else {
                let mut d = concat(dir_part, "/");
                push_str(&mut d, e.name.as_str());
                d
            };
            let insert = if e.is_dir {
                concat(display.as_str(), "/")
            } else {
                display.clone()
            };
            let kind = if e.is_dir {
                CompletionItemKind::Folder
            } else {
                CompletionItemKind::File
            };
            push_item(&mut out, make_item(display, kind, None, insert));
        }
        assert(items_view(out@) =~= fs_items(pb, ev.subrange(0, i + 1)));
        i += 1;
    }
    assert(ev.subrange(0, i as int) =~= ev);
    out
}

/// The part of a label after its last `/`.
pub open spec fn basename(label: Seq<char>) -> Seq<char> {
    match last_byte_index(utf8(label), 0x2f) {
        Some(i) => decode_utf8(utf8(label).subrange(i + 1, utf8(label).len() as int)),
        None => label,
    }
}

/// An include completion ranked for sorting: directories and Makefile
/// fragments (by basename) get the sort text `0` + label, others `1` +
/// label.
pub open spec fn ranked(i: CompletionItemView) -> CompletionItemView {
    let rank = if i.kind == Some(CompletionItemKind::Folder) || spec_is_makefile_fragment(basename(i.label)) {
        "0"@
    } else {
        "1"@
    };
    CompletionItemView { sort_text: Some(rank + i.label), ..i }
}

/// Rank filesystem completions for an include directive path, common
/// Makefile fragment names (`*.mk`, `Makefile.*`, ...) and directories
/// first.
pub fn rank_include_completions(items: Vec<CompletionItem>) -> (r: Vec<CompletionItem>)
    ensures
        items_view(r@) == items_view(items@).map_values(|i: CompletionItemView| ranked(i)),
{
    let ghost iv = items_view(items@);
    let n = items.len();
    let mut rest = items;
    let mut out: Vec<CompletionItem> = Vec::new();
    let mut k: usize = 0;
    while rest.len() > 0
        invariant
            k + rest@.len() == iv.len(),
            iv.len() == n,
            items_view(rest@) == iv.subrange(k as int, iv.len() as int),
            items_view(out@) == iv.subrange(0, k as int).map_values(|i: CompletionItemView| ranked(i)),
        decreases rest@.len(),
    {
        let ghost old_rest = rest@;
        let it = rest.remove(0);
        assert(rest@ =~= old_rest.subrange(1, old_rest.len() as int));
        assert(items_view(old_rest)[0] == it@);
        assert(iv[k as int] == it@);
        assert forall|m: int| 0 <= m < rest@.len() implies #[trigger] items_view(rest@)[m] == iv[k + 1 + m] by {
            assert(rest@[m] == old_rest[m + 1]);
            assert(items_view(old_rest)[m + 1] == iv[k + 1 + m]);
        }
        assert(items_view(rest@) =~= iv.subrange(k + 1, iv.len() as int));
        let lb = it.label.as_str().as_bytes();
        let ghost lbs = lb@;
        let mut j = lb.len();
        assert(lbs.subrange(0, j as int) =~= lbs);
        while j > 0 && lb[j - 1] != 0x2f
            invariant
                j <= lbs.len(),
                lb@ == lbs,
                last_byte_index(lbs, 0x2f) == last_byte_index(lbs.subrange(0, j as int), 0x2f),
            decreases j,
        {
            assert(lbs.subrange(0, j as int).drop_last() =~= lbs.subrange(0, j - 1));
            j -= 1;
        }
        let base: &str = if j == 0 {
            it.label.as_str()
        } else {
            assert(lbs.subrange(0, j as int).last() == 0x2f);
            proof {
                lemma_boundary_at_ascii(lbs, j - 1);
                lemma_boundary_after_ascii(lbs, j - 1);
                is_char_boundary_start_end_of_seq(lbs);
            }
            substr(it.label.as_str(), j, lb.len())
        };
        assert(base@ == basename(it.label@));
        let first = it.kind == Some(CompletionItemKind::Folder) || is_makefile_fragment(base);
        let mut sort = String::new();
        if first {
            push_str(&mut sort, "0");
        } else {
            push_str(&mut sort, "1");
        }
        push_str(&mut sort, it.label.as_str());
        let CompletionItem { label, kind, detail, insert_text, sort_text: _ } = it;
        push_item(&mut out, CompletionItem { label, kind, detail, insert_text, sort_text: Some(sort) });
        assert(items_view(out@) =~= iv.subrange(0, k + 1).map_values(|i: CompletionItemView| ranked(i)));
        k += 1;
    }
    assert(iv.subrange(0, k as int) =~= iv);
    out
}

/// The targets of the rules, rule by rule, that are neither patterns nor
/// special targets, as references inserting the target.
pub open spec fn target_reference_candidates(rules: Seq<RuleView>) -> Seq<CompletionItemView>
    decreases rules.len(),
{
    if rules.len() == 0 {
        seq![]
    } else {
        target_reference_candidates(rules.drop_last()) + rules.last().targets.filter(
            |t: Seq<char>| !utf8(t).contains(0x25u8) && !(utf8(t).len() > 0 && utf8(t)[0] == 0x2e),
        ).map_values(|t: Seq<char>| item(t, CompletionItemKind::Reference, Some("target"@), t))
    }
}

/// Completions for the prerequisites of a rule: the targets defined in the
/// makefile, then the filesystem completions `fs` (listed by the caller,
/// empty where there is no directory to list), each label once.
pub fn get_prerequisite_completions(makefile: &Makefile, fs: Vec<CompletionItem>) -> (r: Vec<CompletionItem>)
    ensures
        items_view(r@) == first_by_label(target_reference_candidates(makefile@.rules) + items_view(fs@)),
{
    let ghost rules = makefile@.rules;
    let mut cands: Vec<CompletionItem> = Vec::new();
    let ghost f = |t: Seq<char>| !utf8(t).contains(0x25u8) && !(utf8(t).len() > 0 && utf8(t)[0] == 0x2e);
    let ghost g = |t: Seq<char>| item(t, CompletionItemKind::Reference, Some("target"@), t);
    let mut i: usize = 0;
    while i < makefile.rules.len()
        invariant
            i <= makefile.rules@.len(),
            rules == makefile@.rules,
            f == (|t: Seq<char>| !utf8(t).contains(0x25u8) && !(utf8(t).len() > 0 && utf8(t)[0] == 0x2e)),
            g == (|t: Seq<char>| item(t, CompletionItemKind::Reference, Some("target"@), t)),
            items_view(cands@) == target_reference_candidates(rules.subrange(0, i as int)),
        decreases makefile.rules@.len() - i,
    {
        let rule = &makefile.rules[i];
        assert(rules[i as int] == rule@);
        assert(rules.subrange(0, i + 1).drop_last() =~= rules.subrange(0, i as int));
        let ghost ts = rule@.targets;
        let ghost start = items_view(cands@);
        let mut k: usize = 0;
        while k < rule.targets.len()
            invariant
                k <= rule.targets@.len(),
                ts == strings_view(rule.targets@),
                f == (|t: Seq<char>| !utf8(t).contains(0x25u8) && !(utf8(t).len() > 0 && utf8(t)[0] == 0x2e)),
                g == (|t: Seq<char>| item(t, CompletionItemKind::Reference, Some("target"@), t)),
                items_view(cands@) == start + ts.subrange(0, k as int).filter(f).map_values(g),
            decreases rule.targets@.len() - k,
        {
            let t = &rule.targets[k];
            assert(ts[k as int] == t@);
            let ghost a = ts.subrange(0, k as int).filter(f);
            assert(ts.subrange(0, k + 1).drop_last() =~= ts.subrange(0, k as int));
            reveal(Seq::filter);
            let tb = t.as_str().as_bytes();
            if !bytes_contain(tb, 0x25) && !(tb.len() > 0 && tb[0] == 0x2e) {
                let mut detail = String::new();
                push_str(&mut detail, "target");
                push_item(&mut cands, make_item(t.clone(), CompletionItemKind::Reference, Some(detail), t.clone()));
                assert(ts.subrange(0, k + 1).filter(f) =~= a.push(t@));
                assert(a.push(t@).map_values(g) =~= a.map_values(g).push(g(t@)));
                assert(items_view(cands@) =~= start + ts.subrange(0, k + 1).filter(f).map_values(g));
            } else {
                assert(ts.subrange(0, k + 1).filter(f) =~= a);
            }
            k += 1;
        }
        assert(ts.subrange(0, k as int) =~= ts);
        assert(items_view(cands@) =~= target_reference_candidates(rules.subrange(0, i + 1)));
        i += 1;
    }
    assert(rules.subrange(0, i as int) =~= rules);
    let ghost tv = items_view(cands@);
    let ghost fv = items_view(fs@);
    let n = fs.len();
    let mut rest = fs;
    let mut j: usize = 0;
    while rest.len() > 0
        invariant
            j + rest@.len() == fv.len(),
            fv.len() == n,
            items_view(rest@) == fv.subrange(j as int, fv.len() as int),
            items_view(cands@) == tv + fv.subrange(0, j as int),
        decreases rest@.len(),
    {
        let ghost old_rest = rest@;
        let it = rest.remove(0);
        assert(rest@ =~= old_rest.subrange(1, old_rest.len() as int));
        assert(items_view(old_rest)[0] == it@);
        assert(fv[j as int] == it@);
        assert forall|m: int| 0 <= m < rest@.len() implies #[trigger] items_view(rest@)[m] == fv[j + 1 + m] by {
            assert(rest@[m] == old_rest[m + 1]);
            assert(items_view(old_rest)[m + 1] == fv[j + 1 + m]);
        }
        assert(items_view(rest@) =~= fv.subrange(j + 1, fv.len() as int));
        push_item(&mut cands, it);
        assert(items_view(cands@) =~= tv + fv.subrange(0, j + 1));
        j += 1;
    }
    assert(fv.subrange(0, j as int) =~= fv);
    dedup_by_label(cands)
}

// ---- What to complete at a position ----

/// What to complete at a position: items, or a path for which the caller
/// lists a directory first.
pub enum CompletionStep {
    Items(Vec<CompletionItem>),
    /// An include path is typed: list the directory that this partial path
    /// names (relative to the document's directory), make the
    /// `filesystem_completions` of its entries and pass them to
    /// `rank_include_completions`; with no directory, nothing is offered.
    IncludePath(String),
    /// A prerequisite is typed: list the directory that this partial path
    /// names, make the `filesystem_completions` of its entries and pass
    /// them to `get_prerequisite_completions` (with no directory, pass
    /// none).
    Prerequisite(String),
}

pub enum CompletionStepView {
    Items(Seq<CompletionItemView>),
    IncludePath(Seq<char>),
    Prerequisite(Seq<char>),
}

impl View for CompletionStep {
    type V = CompletionStepView;

    open spec fn view(&self) -> CompletionStepView {
        match self {
            CompletionStep::Items(v) => CompletionStepView::Items(items_view(v@)),
            CompletionStep::IncludePath(p) => CompletionStepView::IncludePath(p@),
            CompletionStep::Prerequisite(p) => CompletionStepView::Prerequisite(p@),
        }
    }
}

/// The bytes of line `n` of `bs`, by `str::lines`, or nothing.
pub open spec fn line_bytes(bs: Seq<u8>, n: nat) -> Seq<u8> {
    match line_range(bs, n) {
        Some((s, e)) => bs.subrange(s, e),
        None => seq![],
    }
}

/// The functions, then the variable references.
pub open spec fn call_items(m: MakefileView) -> Seq<CompletionItemView> {
    spec_builtin_functions().map_values(|f: BuiltinFunctionSpec| function_item(f)) + first_by_label(
        reference_candidates(m.variables),
    )
}

/// The first `c` bytes of the line end with `$(`.
pub open spec fn ends_with_call(lb: Seq<u8>, c: int) -> bool {
    c >= 2 && lb[c - 2] == 0x24 && lb[c - 1] == 0x28
}

/// The column of `position` within its line, in bytes, capped at the line's
/// length.
pub open spec fn column_in(lb: Seq<u8>, position: Position) -> int {
    if position.character < lb.len() {
        position.character as int
    } else {
        lb.len() as int
    }
}

/// The include path typed at `position`, if the line is an include
/// directive and the cursor is past the start of its last path.
pub open spec fn include_partial(lb: Seq<u8>, position: Position) -> Option<(int, int)> {
    match spec_include_path_start(lb) {
        Some(ps) => if position.character >= ps {
            Some((ps, column_in(lb, position)))
        } else {
            None
        },
        None => None,
    }
}

/// The offset of `position` when it lies in the prerequisites of a rule.
pub open spec fn prerequisite_offset(bs: Seq<u8>, position: Position) -> Option<int> {
    match spec_position_to_offset(bs, position) {
        Some(o) => if is_char_boundary(bs, o) && spec_is_in_prerequisites(bs, o) {
            Some(o)
        } else {
            None
        },
        None => None,
    }
}

/// What to complete at `position`: in a recipe line, functions and
/// variable references after `$(`, automatic variables after `$`; on an
/// include line, the path; in the prerequisites of a rule, targets and
/// paths; at the start of a blank line, special targets; on a line without
/// `=` or `:`, variable names; after `$(`, functions and variable
/// references.
pub open spec fn spec_completion_step(bs: Seq<u8>, m: MakefileView, position: Position) -> CompletionStepView {
    let lb = line_bytes(bs, position.line as nat);
    let c = column_in(lb, position);
    if lb.len() > 0 && lb[0] == 0x09 {
        if ends_with_call(lb, c) {
            CompletionStepView::Items(call_items(m))
        } else if c >= 1 && lb[c - 1] == 0x24 {
            CompletionStepView::Items(automatic_items())
        } else {
            CompletionStepView::Items(seq![])
        }
    } else {
        match include_partial(lb, position) {
            Some((ps, e)) => CompletionStepView::IncludePath(decode_utf8(lb.subrange(ps, e))),
            None => match prerequisite_offset(bs, position) {
                Some(o) => CompletionStepView::Prerequisite(decode_utf8(bs.subrange(partial_word_start(bs, o), o))),
                None => if position.character == 0 && trimmed(lb).len() == 0 {
                    CompletionStepView::Items(target_items(m.rules, spec_special_targets()))
                } else if position.character > 0 && !lb.contains(0x3du8) && !lb.contains(0x3au8) {
                    CompletionStepView::Items(variable_items(m.variables))
                } else if position.character >= 2 && ends_with_call(lb, c) {
                    CompletionStepView::Items(call_items(m))
                } else {
                    CompletionStepView::Items(seq![])
                },
            },
        }
    }
}

/// Every place where the line or the text is cut on the way to the answer
/// is a character boundary (cutting elsewhere panics).
pub open spec fn completion_cuts_at_boundaries(bs: Seq<u8>, position: Position) -> bool {
    let lb = line_bytes(bs, position.line as nat);
    let c = column_in(lb, position);
    if lb.len() > 0 && lb[0] == 0x09 {
        is_char_boundary(lb, c)
    } else {
        match include_partial(lb, position) {
            Some((ps, e)) => is_char_boundary(lb, ps) && is_char_boundary(lb, e),
            None => match prerequisite_offset(bs, position) {
                Some(o) => is_char_boundary(bs, partial_word_start(bs, o)),
                None => (position.character == 0 && trimmed(lb).len() == 0) || (position.character > 0
                    && !lb.contains(0x3du8) && !lb.contains(0x3au8)) || position.character < 2 || is_char_boundary(lb, c),
            },
        }
    }
}

proof fn lemma_include_path_start_bounds(bs: Seq<u8>)
    ensures
        spec_include_path_start(bs) matches Some(ps) ==> 0 <= ps <= bs.len(),
{
    let ts = trim_start_from(bs, 0);
    lemma_trim_start_bounds(bs, 0);
    let kws = include_keywords();
    if keyword_at(bs, ts, kws[0]) || keyword_at(bs, ts, kws[1]) || keyword_at(bs, ts, kws[2]) {
        let k = if keyword_at(bs, ts, kws[0]) {
            0int
        } else if keyword_at(bs, ts, kws[1]) {
            1
        } else {
            2
        };
        lemma_last_separator_bounds(bs, ts + kws[k].len(), bs.len() as int, false);
    }
}

/// The functions, then the variable references.
fn call_completions(makefile: &Makefile) -> (r: Vec<CompletionItem>)
    ensures
        items_view(r@) == call_items(makefile@),
{
    let mut items = get_function_completions();
    let mut refs = get_variable_reference_completions(makefile);
    let ghost a = items@;
    let ghost b = refs@;
    items.append(&mut refs);
    assert(items_view(items@) =~= items_view(a) + items_view(b));
    items
}

/// Decide what to complete at `position`.
pub fn completion_step(makefile: &Makefile, source_text: &str, position: Position) -> (r: CompletionStep)
    requires
        completion_cuts_at_boundaries(source_text.spec_bytes(), position),
    ensures
        r@ == spec_completion_step(source_text.spec_bytes(), makefile@, position),
{
    let ghost bs = source_text.spec_bytes();
    let line = match nth_line(source_text, position.line) {
        Some(l) => l,
        None => "",
    };
    proof {
        reveal_strlit("");
    }
    let lb = line.as_bytes();
    assert(lb@ == line_bytes(bs, position.line as nat));
    let c: usize = if (position.character as usize) < lb.len() {
        position.character as usize
    } else {
        lb.len()
    };
    if lb.len() > 0 && lb[0] == 0x09 {
        if c >= 2 && lb[c - 2] == 0x24 && lb[c - 1] == 0x28 {
            return CompletionStep::Items(call_completions(makefile));
        }
        if c >= 1 && lb[c - 1] == 0x24 {
            return CompletionStep::Items(get_automatic_variable_completions());
        }
        let none: Vec<CompletionItem> = Vec::new();
        assert(items_view(none@) =~= seq![]);
        return CompletionStep::Items(none);
    }
    if let Some(ps) = include_path_start(line) {
        proof {
            lemma_include_path_start_bounds(lb@);
        }
        if position.character as usize >= ps {
            let partial = substr(line, ps, c);
            return CompletionStep::IncludePath(partial.to_owned());
        }
    }
    if let Some(offset) = try_position_to_offset(source_text, position) {
        proof {
            crate::position::lemma_position_to_offset_bounds(bs, position);
            crate::position::lemma_position_offset_boundary(bs, position);
        }
        if lossless_is_in_prerequisites(source_text, offset) {
            let partial = partial_word_before(source_text, offset);
            return CompletionStep::Prerequisite(partial.to_owned());
        }
    }
    if position.character == 0 && trim(line).as_bytes().len() == 0 {
        return CompletionStep::Items(get_target_completions(makefile));
    }
    if position.character > 0 && !bytes_contain(lb, 0x3d) && !bytes_contain(lb, 0x3a) {
        return CompletionStep::Items(get_variable_completions(makefile));
    }
    if position.character >= 2 && c >= 2 && lb[c - 2] == 0x24 && lb[c - 1] == 0x28 {
        return CompletionStep::Items(call_completions(makefile));
    }
    let none: Vec<CompletionItem> = Vec::new();
    assert(items_view(none@) =~= seq![]);
    CompletionStep::Items(none)
}

/// The completions at `position` when there is no directory to list: an
/// include path gets none, a prerequisite the targets of the makefile.
pub open spec fn spec_completions(bs: Seq<u8>, m: MakefileView, position: Position) -> Seq<CompletionItemView> {
    match spec_completion_step(bs, m, position) {
        CompletionStepView::Items(v) => v,
        CompletionStepView::IncludePath(_) => seq![],
        CompletionStepView::Prerequisite(_) => first_by_label(target_reference_candidates(m.rules)),
    }
}

/// Get completions for a Makefile at the given position, for a document
/// with no directory to list (see `completion_step` for the full steps).
pub fn get_completions(makefile: &Makefile, source_text: &str, position: Position) -> (r: Vec<CompletionItem>)
    requires
        completion_cuts_at_boundaries(source_text.spec_bytes(), position),
    ensures
        items_view(r@) == spec_completions(source_text.spec_bytes(), makefile@, position),
{
    match completion_step(makefile, source_text, position) {
        CompletionStep::Items(v) => v,
        CompletionStep::IncludePath(_) => {
            let none: Vec<CompletionItem> = Vec::new();
            assert(items_view(none@) =~= seq![]);
            none
        },
        CompletionStep::Prerequisite(_) => {
            let none: Vec<CompletionItem> = Vec::new();
            let r = get_prerequisite_completions(makefile, none);
            assert(target_reference_candidates(makefile@.rules) + items_view(none@) =~= target_reference_candidates(
                makefile@.rules,
            ));
            r
        },
    }
}

/// Is byte `i` of the text with bytes `bs` a character boundary?
fn boundary_at(bs: &[u8], i: usize) -> (r: bool)
    requires
        valid_utf8(bs@),
    ensures
        r == is_char_boundary(bs@, i as int),
{
    if i == 0 {
        return true;
    }
    if i > bs.len() {
        return false;
    }
    if i == bs.len() {
        proof {
            is_char_boundary_start_end_of_seq(bs@);
        }
        return true;
    }
    proof {
        is_char_boundary_iff_not_is_continuation_byte(bs@, i as int);
    }
    !(0x80 <= bs[i] && bs[i] <= 0xbf)
}

/// Does completion at `position` cut the text only at character
/// boundaries? Where it does not, `get_completions` panics.
pub fn completion_cuts_ok(source_text: &str, position: Position) -> (r: bool)
    ensures
        r == completion_cuts_at_boundaries(source_text.spec_bytes(), position),
{
    let ghost bs = source_text.spec_bytes();
    let line = match nth_line(source_text, position.line) {
        Some(l) => l,
        None => "",
    };
    proof {
        reveal_strlit("");
    }
    let lb = line.as_bytes();
    assert(lb@ == line_bytes(bs, position.line as nat));
    let c: usize = if (position.character as usize) < lb.len() {
        position.character as usize
    } else {
        lb.len()
    };
    if lb.len() > 0 && lb[0] == 0x09 {
        return boundary_at(lb, c);
    }
    if let Some(ps) = include_path_start(line) {
        if position.character as usize >= ps {
            return boundary_at(lb, ps) && boundary_at(lb, c);
        }
    }
    if let Some(offset) = try_position_to_offset(source_text, position) {
        proof {
            crate::position::lemma_position_to_offset_bounds(bs, position);
            crate::position::lemma_position_offset_boundary(bs, position);
        }
        if lossless_is_in_prerequisites(source_text, offset) {
            let bytes = source_text.as_bytes();
            let ghost b = bytes@;
            let mut ls = offset;
            while ls > 0 && bytes[ls - 1] != NEWLINE
                invariant
                    ls <= offset <= b.len(),
                    bytes@ == b,
                    last_line_start(b.subrange(0, offset as int)) == last_line_start(b.subrange(0, ls as int)),
                decreases ls,
            {
                assert(b.subrange(0, ls as int).drop_last() =~= b.subrange(0, ls - 1));
                ls -= 1;
            }
            if ls > 0 {
                assert(b.subrange(0, ls as int).last() == NEWLINE);
            }
            proof {
                lemma_last_separator_bounds(b, ls as int, offset as int, true);
            }
            let start = match last_separator_exec(bytes, ls, offset, true) {
                Some(p) => p + 1,
                None => ls,
            };
            return boundary_at(bytes, start);
        }
    }
    (position.character == 0 && trim(line).as_bytes().len() == 0) || (position.character > 0 && !bytes_contain(lb, 0x3d)
        && !bytes_contain(lb, 0x3a)) || position.character < 2 || boundary_at(lb, c)
}

/// Every item kept by `first_by_label` is an item of `v`.
proof fn lemma_first_by_label_items_from(v: Seq<CompletionItemView>)
    ensures
        forall|i: int| 0 <= i < first_by_label(v).len() ==> v.contains(#[trigger] first_by_label(v)[i]),
    decreases v.len(),
{
    if v.len() > 0 {
        let p = v.drop_last();
        lemma_first_by_label_items_from(p);
        let fp = first_by_label(p);
        assert forall|i: int| 0 <= i < first_by_label(v).len() implies v.contains(#[trigger] first_by_label(v)[i]) by {
            if i < fp.len() {
                assert(first_by_label(v)[i] == fp[i]);
                let k = choose|k: int| 0 <= k < p.len() && p[k] == fp[i];
                assert(v[k] == p[k]);
            } else {
                assert(first_by_label(v)[i] == v.last());
                assert(v[v.len() - 1] == v.last());
            }
        }
    }
}

/// The items for the named definitions reference each named definition,
/// inserting its name and a closing parenthesis.
proof fn lemma_named_reference_items_shape(vars: Seq<VariableDefinitionView>)
    ensures
        forall|i: int|
            0 <= i < named_reference_items(vars).len() ==> {
                let x = #[trigger] named_reference_items(vars)[i];
                &&& x.kind == Some(CompletionItemKind::Variable)
                &&& x.insert_text == Some(x.label + ")"@)
            },
        forall|k: int|
            0 <= k < vars.len() && (#[trigger] vars[k]).name is Some ==> labels(named_reference_items(vars)).contains(
                vars[k].name.unwrap(),
            ),
    decreases vars.len(),
{
    if vars.len() > 0 {
        let p = vars.drop_last();
        lemma_named_reference_items_shape(p);
        let a = named_reference_items(p);
        let all = named_reference_items(vars);
        assert forall|k: int| 0 <= k < vars.len() && (#[trigger] vars[k]).name is Some implies labels(all).contains(
            vars[k].name.unwrap(),
        ) by {
            if k < p.len() {
                assert(vars[k] == p[k]);
                let j = choose|j: int| 0 <= j < labels(a).len() && labels(a)[j] == p[k].name.unwrap();
                assert(labels(all)[j] == labels(a)[j]);
            } else {
                assert(labels(all)[a.len() as int] == vars.last().name.unwrap());
            }
        }
    }
}

/// The reference items offered after `$(`: one per label, each a variable
/// inserting its name and `)`, covering every built-in variable and every
/// named definition.
proof fn lemma_reference_items_shape(vars: Seq<VariableDefinitionView>)
    ensures
        ({
            let refs = first_by_label(reference_candidates(vars));
            &&& forall|i: int, j: int| 0 <= i < j < refs.len() ==> #[trigger] refs[i].label != #[trigger] refs[j].label
            &&& forall|i: int|
                0 <= i < refs.len() ==> (#[trigger] refs[i]).kind == Some(CompletionItemKind::Variable)
                    && refs[i].insert_text == Some(refs[i].label + ")"@)
            &&& forall|i: int| 0 <= i < spec_builtin_variable_docs().len() ==> labels(refs).contains(
                (#[trigger] spec_builtin_variable_docs()[i]).0,
            )
            &&& forall|k: int| 0 <= k < vars.len() && (#[trigger] vars[k]).name is Some ==> labels(refs).contains(
                vars[k].name.unwrap(),
            )
        }),
{
    let cands = reference_candidates(vars);
    let refs = first_by_label(cands);
    lemma_first_by_label_each_label_once(cands);
    lemma_first_by_label_items_from(cands);
    let docs = spec_builtin_variable_docs();
    let di = docs.map_values(
        |p: (Seq<char>, Seq<char>)| item(p.0, CompletionItemKind::Variable, Some(p.1), p.0 + ")"@),
    );
    let ni = named_reference_items(vars);
    lemma_named_reference_items_shape(vars);
    assert(cands == di + ni);
    assert forall|i: int| 0 <= i < refs.len() implies (#[trigger] refs[i]).kind == Some(CompletionItemKind::Variable)
        && refs[i].insert_text == Some(refs[i].label + ")"@) by {
        assert(cands.contains(refs[i]));
        let k = choose|k: int| 0 <= k < cands.len() && cands[k] == refs[i];
        if k >= di.len() {
            assert(cands[k] == ni[k - di.len()]);
        }
    }
    assert forall|i: int| 0 <= i < docs.len() implies labels(refs).contains((#[trigger] docs[i]).0) by {
        assert(labels(cands)[i] == docs[i].0);
        assert(labels(cands).contains(docs[i].0));
    }
    assert forall|k: int| 0 <= k < vars.len() && (#[trigger] vars[k]).name is Some implies labels(refs).contains(
        vars[k].name.unwrap(),
    ) by {
        let n = vars[k].name.unwrap();
        assert(labels(ni).contains(n));
        let j = choose|j: int| 0 <= j < labels(ni).len() && labels(ni)[j] == n;
        assert(labels(cands)[di.len() + j] == n);
        assert(labels(cands).contains(n));
    }
}

/// After `$(`, on a recipe line, or on a line that is not an include path
/// nor in the prerequisites and that holds `=` or `:`, the completions are
/// every built-in function, in table order, followed by the references:
/// one item per label, each a variable inserting its name and `)`, covering
/// every built-in variable and every named definition.
pub proof fn lemma_call_completions(bs: Seq<u8>, m: MakefileView, position: Position)
    requires
        ({
            let lb = line_bytes(bs, position.line as nat);
            &&& (lb[0] == 0x09 || {
                &&& include_partial(lb, position) is None
                &&& prerequisite_offset(bs, position) is None
                &&& (lb.contains(0x3du8) || lb.contains(0x3au8))
            })
            &&& 2 <= position.character <= lb.len()
            &&& lb[position.character - 2] == 0x24u8
            &&& lb[position.character - 1] == 0x28u8
        }),
    ensures
        ({
            let v = spec_completions(bs, m, position);
            let fs = spec_builtin_functions();
            let tail = v.subrange(fs.len() as int, v.len() as int);
            &&& fs.len() <= v.len()
            &&& forall|i: int| 0 <= i < fs.len() ==> #[trigger] v[i] == function_item(fs[i])
            &&& forall|i: int, j: int| 0 <= i < j < tail.len() ==> #[trigger] tail[i].label != #[trigger] tail[j].label
            &&& forall|i: int|
                0 <= i < tail.len() ==> (#[trigger] tail[i]).kind == Some(CompletionItemKind::Variable)
                    && tail[i].insert_text == Some(tail[i].label + ")"@)
            &&& forall|i: int| 0 <= i < spec_builtin_variable_docs().len() ==> labels(tail).contains(
                (#[trigger] spec_builtin_variable_docs()[i]).0,
            )
            &&& forall|k: int| 0 <= k < m.variables.len() && (#[trigger] m.variables[k]).name is Some ==> labels(
                tail,
            ).contains(m.variables[k].name.unwrap())
        }),
{
    let lb = line_bytes(bs, position.line as nat);
    let fs = spec_builtin_functions();
    let fi = fs.map_values(|f: BuiltinFunctionSpec| function_item(f));
    let refs = first_by_label(reference_candidates(m.variables));
    assert(column_in(lb, position) == position.character || position.character == lb.len());
    assert(spec_completions(bs, m, position) == fi + refs);
    let v = fi + refs;
    assert(v.subrange(fs.len() as int, v.len() as int) =~= refs);
    lemma_reference_items_shape(m.variables);
}

} // verus!
