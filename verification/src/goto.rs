//! Go-to-definition for Makefiles, and the text scanning it relies on.

use vstd::prelude::*;
use vstd::string::StringSliceAdditionalSpecFns;
use vstd::utf8::*;

use crate::hover::{first_rule_index, first_rule_with_target, first_variable_index, first_variable_named};
use crate::makefile::{Makefile, MakefileView};
use crate::position::{
    last_line_start, lsp_range, spec_position_to_offset, text_range_to_lsp_range, try_position_to_offset, Position,
    Range, NEWLINE,
};
use crate::strs::{lemma_boundary_after_ascii, lemma_boundary_at_ascii, substr};

verus! {

broadcast use {vstd::utf8::encode_utf8_valid_utf8, vstd::utf8::encode_utf8_decode_utf8};

pub const TAB: u8 = 9;

/// ASCII letters and digits.
pub open spec fn is_ascii_alnum(b: u8) -> bool {
    (0x30 <= b <= 0x39) || (0x41 <= b <= 0x5a) || (0x61 <= b <= 0x7a)
}

/// Bytes that make up a word: ASCII alphanumerics, `_`, `.` and `-`.
pub open spec fn is_ident_byte(b: u8) -> bool {
    is_ascii_alnum(b) || b == 0x5f || b == 0x2e || b == 0x2d
}

pub fn is_ascii_alnum_byte(b: u8) -> (r: bool)
    ensures
        r == is_ascii_alnum(b),
{
    (0x30 <= b && b <= 0x39) || (0x41 <= b && b <= 0x5a) || (0x61 <= b && b <= 0x7a)
}

pub fn is_ident(b: u8) -> (r: bool)
    ensures
        r == is_ident_byte(b),
{
    is_ascii_alnum_byte(b) || b == 0x5f || b == 0x2e || b == 0x2d
}

/// Start of the run of word bytes that ends at `i`.
pub open spec fn ident_run_start(bs: Seq<u8>, i: int) -> int
    decreases i,
{
    if i <= 0 || i > bs.len() || !is_ident_byte(bs[i - 1]) {
        i
    } else {
        ident_run_start(bs, i - 1)
    }
}

/// End of the run of word bytes that starts at `i`.
pub open spec fn ident_run_end(bs: Seq<u8>, i: int) -> int
    decreases bs.len() - i,
{
    if i < 0 || i >= bs.len() || !is_ident_byte(bs[i]) {
        i
    } else {
        ident_run_end(bs, i + 1)
    }
}

/// The byte range of the word containing or ending at `offset`.
pub open spec fn spec_word_at_offset(bs: Seq<u8>, offset: int) -> Option<(int, int)> {
    if offset < 0 || offset > bs.len() {
        None
    } else if offset < bs.len() && !is_ident_byte(bs[offset]) {
        None
    } else {
        let s = ident_run_start(bs, offset);
        let e = ident_run_end(bs, offset);
        if s == e {
            None
        } else {
            Some((s, e))
        }
    }
}

/// A `$(` or `${` ends at byte `i`.
pub open spec fn is_ref_open(bs: Seq<u8>, i: int) -> bool {
    (bs[i] == 0x28 || bs[i] == 0x7b) && bs[i - 1] == 0x24
}

/// Bytes that end the backward search for an opening `$(`: `)`, `}` or a newline.
pub open spec fn is_ref_stop(b: u8) -> bool {
    b == 0x29 || b == 0x7d || b == NEWLINE
}

/// Scanning backwards from byte `i` down to byte 1: the byte just after the
/// nearest `$(`/`${`, unless a `)`, `}` or newline comes first.
pub open spec fn ref_name_start(bs: Seq<u8>, i: int) -> Option<int>
    decreases i,
{
    if i < 1 || i >= bs.len() {
        None
    } else if is_ref_open(bs, i) {
        Some(i + 1)
    } else if is_ref_stop(bs[i]) {
        None
    } else {
        ref_name_start(bs, i - 1)
    }
}

/// Index of the first `)` or `}` at or after byte `j`.
pub open spec fn closer_from(bs: Seq<u8>, j: int) -> Option<int>
    decreases bs.len() - j,
{
    if j < 0 || j >= bs.len() {
        None
    } else if bs[j] == 0x29 || bs[j] == 0x7d {
        Some(j)
    } else {
        closer_from(bs, j + 1)
    }
}

/// The byte range of the variable name of the `$(VAR)` or `${VAR}` reference
/// around `offset`.
pub open spec fn spec_variable_at_offset(bs: Seq<u8>, offset: int) -> Option<(int, int)> {
    match ref_name_start(bs, offset - 1) {
        Some(s) => match closer_from(bs, s) {
            Some(e) => if offset <= e {
                Some((s, e))
            } else {
                None
            },
            None => None,
        },
        None => None,
    }
}

/// The text is within the prerequisites area of a rule line: after a `:` on a
/// line that is not a recipe line.
pub open spec fn spec_is_in_prerequisites(bs: Seq<u8>, offset: int) -> bool {
    let ls = last_line_start(bs.subrange(0, offset));
    &&& !(ls < bs.len() && bs[ls] == TAB)
    &&& exists|k: int| ls <= k < offset && bs[k] == 0x3a
}

pub proof fn lemma_ident_run_start_bounds(bs: Seq<u8>, i: int)
    requires
        0 <= i <= bs.len(),
    ensures
        0 <= ident_run_start(bs, i) <= i,
        forall|k: int| ident_run_start(bs, i) <= k < i ==> is_ident_byte(#[trigger] bs[k]),
    decreases i,
{
    if i > 0 && is_ident_byte(bs[i - 1]) {
        lemma_ident_run_start_bounds(bs, i - 1);
    }
}

pub proof fn lemma_ident_run_end_bounds(bs: Seq<u8>, i: int)
    requires
        0 <= i <= bs.len(),
    ensures
        i <= ident_run_end(bs, i) <= bs.len(),
        forall|k: int| i <= k < ident_run_end(bs, i) ==> is_ident_byte(#[trigger] bs[k]),
    decreases bs.len() - i,
{
    if i < bs.len() && is_ident_byte(bs[i]) {
        lemma_ident_run_end_bounds(bs, i + 1);
    }
}

/// Backward scan for the start of the word ending at `offset`.
pub fn scan_word_start(bytes: &[u8], offset: usize) -> (s: usize)
    requires
        offset <= bytes@.len(),
    ensures
        s == ident_run_start(bytes@, offset as int),
{
    let mut s = offset;
    while s > 0 && is_ident(bytes[s - 1])
        invariant
            s <= offset <= bytes@.len(),
            ident_run_start(bytes@, s as int) == ident_run_start(bytes@, offset as int),
        decreases s,
    {
        s -= 1;
    }
    s
}

/// Forward scan for the end of the word starting at `offset`.
pub fn scan_word_end(bytes: &[u8], offset: usize) -> (e: usize)
    requires
        offset <= bytes@.len(),
    ensures
        e == ident_run_end(bytes@, offset as int),
{
    let mut e = offset;
    while e < bytes.len() && is_ident(bytes[e])
        invariant
            offset <= e <= bytes@.len(),
            ident_run_end(bytes@, e as int) == ident_run_end(bytes@, offset as int),
        decreases bytes@.len() - e,
    {
        e += 1;
    }
    e
}

/// Extract the word (identifier) at the given byte offset.
pub fn word_at_offset(text: &str, offset: usize) -> (r: Option<&str>)
    ensures
        r is None <==> spec_word_at_offset(text.spec_bytes(), offset as int) is None,
        r matches Some(w) ==> (spec_word_at_offset(text.spec_bytes(), offset as int) matches Some(
            (s, e),
        ) && w.spec_bytes() == text.spec_bytes().subrange(s, e)),
{
    let bytes = text.as_bytes();
    if offset > bytes.len() {
        return None;
    }
    if offset < bytes.len() && !is_ident(bytes[offset]) {
        return None;
    }
    let start = scan_word_start(bytes, offset);
    let end = scan_word_end(bytes, offset);
    if start == end {
        return None;
    }
    proof {
        let bs = bytes@;
        lemma_ident_run_start_bounds(bs, offset as int);
        lemma_ident_run_end_bounds(bs, offset as int);
        assert(is_ident_byte(bs[start as int]));
        lemma_boundary_at_ascii(bs, start as int);
        if end < bs.len() {
            assert(is_ident_byte(bs[end - 1]));
            lemma_boundary_at_ascii(bs, end - 1);
            lemma_boundary_after_ascii(bs, end - 1);
        } else {
            is_char_boundary_start_end_of_seq(bs);
        }
    }
    Some(substr(text, start, end))
}

pub proof fn lemma_ref_name_start_bounds(bs: Seq<u8>, i: int)
    ensures
        ref_name_start(bs, i) matches Some(s) ==> 2 <= s <= i + 1 && s <= bs.len() && is_ref_open(
            bs,
            s - 1,
        ),
    decreases i,
{
    if i >= 1 && i < bs.len() && !is_ref_open(bs, i) && !is_ref_stop(bs[i]) {
        lemma_ref_name_start_bounds(bs, i - 1);
    }
}

proof fn lemma_closer_from_bounds(bs: Seq<u8>, j: int)
    ensures
        closer_from(bs, j) matches Some(e) ==> j <= e < bs.len() && (bs[e] == 0x29 || bs[e]
            == 0x7d),
    decreases bs.len() - j,
{
    if 0 <= j < bs.len() && !(bs[j] == 0x29 || bs[j] == 0x7d) {
        lemma_closer_from_bounds(bs, j + 1);
    }
}

proof fn lemma_ref_name_start_clean(bs: Seq<u8>, i: int, k: int)
    requires
        ref_name_start(bs, i) matches Some(s) && s <= k <= i,
    ensures
        !is_ref_stop(bs[k]),
    decreases i,
{
    if k < i {
        lemma_ref_name_start_clean(bs, i - 1, k);
    }
}

proof fn lemma_closer_from_clean(bs: Seq<u8>, j: int, k: int)
    requires
        closer_from(bs, j) matches Some(e) && j <= k < e,
    ensures
        bs[k] != 0x29 && bs[k] != 0x7d,
    decreases k - j,
{
    if j < k {
        lemma_closer_from_clean(bs, j + 1, k);
    }
}

/// The name found around `offset` lies inside the text between `$(` or `${`
/// and the first `)` or `}` after it, which it does not contain, and no
/// newline comes between its start and `offset`.
pub proof fn lemma_variable_at_offset_shape(bs: Seq<u8>, offset: int)
    ensures
        spec_variable_at_offset(bs, offset) matches Some((s, e)) ==> {
            &&& 2 <= s <= offset <= e < bs.len()
            &&& bs[s - 2] == 0x24 && (bs[s - 1] == 0x28 || bs[s - 1] == 0x7b)
            &&& bs[e] == 0x29 || bs[e] == 0x7d
            &&& forall|k: int| s <= k < e ==> #[trigger] bs[k] != 0x29 && bs[k] != 0x7d
            &&& forall|k: int| s <= k < offset ==> #[trigger] bs[k] != NEWLINE
        },
{
    lemma_ref_name_start_bounds(bs, offset - 1);
    if let Some((s, e)) = spec_variable_at_offset(bs, offset) {
        lemma_closer_from_bounds(bs, s);
        assert forall|k: int| s <= k < e implies #[trigger] bs[k] != 0x29 && bs[k] != 0x7d by {
            lemma_closer_from_clean(bs, s, k);
        }
        assert forall|k: int| s <= k < offset implies #[trigger] bs[k] != NEWLINE by {
            lemma_ref_name_start_clean(bs, offset - 1, k);
        }
    }
}

/// Backward scan for the start of the variable name in the reference
/// around byte `offset`.
pub fn scan_ref_name_start(bytes: &[u8], offset: usize) -> (r: Option<usize>)
    requires
        offset <= bytes@.len() || offset < 2,
    ensures
        r matches Some(s) ==> ref_name_start(bytes@, offset - 1) == Some(s as int),
        r is None ==> ref_name_start(bytes@, offset - 1) is None,
{
    let mut i = offset;
    while i >= 2
        invariant
            i <= offset,
            offset <= bytes@.len() || offset < 2,
            ref_name_start(bytes@, offset - 1) == ref_name_start(bytes@, i - 1),
        decreases i,
    {
        i -= 1;
        if (bytes[i] == 0x28 || bytes[i] == 0x7b) && bytes[i - 1] == 0x24 {
            return Some(i + 1);
        }
        if bytes[i] == 0x29 || bytes[i] == 0x7d || bytes[i] == NEWLINE {
            return None;
        }
    }
    None
}

/// Forward scan for the first `)` or `}` at or after byte `j`.
pub fn scan_closer(bytes: &[u8], j: usize) -> (r: Option<usize>)
    ensures
        r matches Some(e) ==> closer_from(bytes@, j as int) == Some(e as int),
        r is None ==> closer_from(bytes@, j as int) is None,
{
    let mut k = j;
    while k < bytes.len()
        invariant
            j <= k,
            closer_from(bytes@, j as int) == closer_from(bytes@, k as int),
        decreases bytes@.len() - k,
    {
        if bytes[k] == 0x29 || bytes[k] == 0x7d {
            return Some(k);
        }
        k += 1;
    }
    None
}

/// Extract a variable name from `$(VAR)` or `${VAR}` surrounding the byte offset
/// within `text`. Returns `None` if the offset is not inside a variable reference.
pub fn variable_at_offset(text: &str, offset: usize) -> (r: Option<&str>)
    requires
        offset <= text.spec_bytes().len() || offset < 2,
    ensures
        r is None <==> spec_variable_at_offset(text.spec_bytes(), offset as int) is None,
        r matches Some(w) ==> (spec_variable_at_offset(text.spec_bytes(), offset as int) matches Some(
            (s, e),
        ) && w.spec_bytes() == text.spec_bytes().subrange(s, e)),
{
    let bytes = text.as_bytes();
    let start = scan_ref_name_start(bytes, offset)?;
    let end = scan_closer(bytes, start)?;
    if offset <= end {
        proof {
            let bs = bytes@;
            lemma_ref_name_start_bounds(bs, offset - 1);
            lemma_closer_from_bounds(bs, start as int);
            lemma_boundary_at_ascii(bs, start - 1);
            lemma_boundary_after_ascii(bs, start - 1);
            lemma_boundary_at_ascii(bs, end as int);
        }
        Some(substr(text, start, end))
    } else {
        None
    }
}

/// Determine if the given byte offset is in the prerequisites area of a rule line
/// (i.e. after the first `:` on a non-recipe line).
pub fn is_in_prerequisites(text: &str, offset: usize) -> (r: bool)
    requires
        offset <= text.spec_bytes().len(),
    ensures
        r == spec_is_in_prerequisites(text.spec_bytes(), offset as int),
{
    let bytes = text.as_bytes();
    let ghost bs = bytes@;
    // Start of the line holding `offset`.
    let mut ls = offset;
    while ls > 0 && bytes[ls - 1] != NEWLINE
        invariant
            ls <= offset <= bs.len(),
            bytes@ == bs,
            last_line_start(bs.subrange(0, offset as int)) == last_line_start(bs.subrange(0, ls as int)),
        decreases ls,
    {
        assert(bs.subrange(0, ls as int).drop_last() =~= bs.subrange(0, ls - 1));
        ls -= 1;
    }
    if ls > 0 {
        assert(bs.subrange(0, ls as int).last() == NEWLINE);
    }
    assert(ls == last_line_start(bs.subrange(0, offset as int)));
    if ls < bytes.len() && bytes[ls] == TAB {
        return false;
    }
    let mut k = ls;
    while k < offset
        invariant
            ls <= k <= offset <= bs.len(),
            bytes@ == bs,
            forall|m: int| ls <= m < k ==> bs[m] != 0x3a,
            ls == last_line_start(bs.subrange(0, offset as int)),
            bs == text.spec_bytes(),
            !(ls < bs.len() && bs[ls as int] == TAB),
        decreases offset - k,
    {
        if bytes[k] == 0x3a {
            assert(bs[k as int] == 0x3a);
            return true;
        }
        k += 1;
    }
    false
}

/// A range in the document `uri`.
pub struct Location {
    pub uri: String,
    pub range: Range,
}

/// The definition that go-to-definition finds at `position`: for a
/// `$(VAR)`/`${VAR}` reference around it, the first definition of `VAR`;
/// for a word in the prerequisites of a rule, the first rule with that
/// target. `None` where there is no such definition.
pub open spec fn spec_goto_definition(bs: Seq<u8>, m: MakefileView, position: Position) -> Option<Range> {
    match spec_position_to_offset(bs, position) {
        None => None,
        Some(o) => match spec_variable_at_offset(bs, o) {
            Some((s, e)) => match first_variable_named(m.variables, decode_utf8(bs.subrange(s, e)), 0) {
                Some(v) => Some(lsp_range(bs, v.range)),
                None => None,
            },
            None => if spec_is_in_prerequisites(bs, o) {
                match spec_word_at_offset(bs, o) {
                    Some((s, e)) => match first_rule_with_target(m.rules, decode_utf8(bs.subrange(s, e)), 0) {
                        Some(r) => Some(lsp_range(bs, r.range)),
                        None => None,
                    },
                    None => None,
                }
            } else {
                None
            },
        },
    }
}

/// Find the definition of the symbol at the given position.
pub fn goto_definition(makefile: &Makefile, source_text: &str, position: Position, uri: &str) -> (r: Option<Location>)
    requires
        source_text.spec_bytes().len() <= u32::MAX,
    ensures
        match r {
            Some(l) => spec_goto_definition(source_text.spec_bytes(), makefile@, position) == Some(l.range)
                && l.uri@ == uri@,
            None => spec_goto_definition(source_text.spec_bytes(), makefile@, position) is None,
        },
{
    let offset = try_position_to_offset(source_text, position)?;
    proof {
        crate::position::lemma_position_to_offset_bounds(source_text.spec_bytes(), position);
    }
    if let Some(var_name) = variable_at_offset(source_text, offset) {
        let k = first_variable_index(makefile, var_name)?;
        let range = text_range_to_lsp_range(source_text, makefile.variables[k].range);
        return Some(Location { uri: uri.to_owned(), range });
    }
    if is_in_prerequisites(source_text, offset) {
        if let Some(word) = word_at_offset(source_text, offset) {
            let k = first_rule_index(makefile, word)?;
            let range = text_range_to_lsp_range(source_text, makefile.rules[k].range);
            return Some(Location { uri: uri.to_owned(), range });
        }
    }
    None
}

/// Go-to-definition on a word of the prerequisites (outside a variable
/// reference) finds nothing exactly when no rule lists the word among its
/// targets; otherwise it gives the range of the first rule that lists it,
/// wherever in its target list.
pub proof fn lemma_goto_prerequisite_first_listing_rule(
    bs: Seq<u8>,
    m: MakefileView,
    position: Position,
    o: int,
    s: int,
    e: int,
)
    requires
        spec_position_to_offset(bs, position) == Some(o),
        spec_variable_at_offset(bs, o) is None,
        spec_is_in_prerequisites(bs, o),
        spec_word_at_offset(bs, o) == Some((s, e)),
    ensures
        ({
            let w = decode_utf8(bs.subrange(s, e));
            &&& spec_goto_definition(bs, m, position) is None <==> forall|k: int|
                0 <= k < m.rules.len() ==> !(#[trigger] m.rules[k]).targets.contains(w)
            &&& spec_goto_definition(bs, m, position) matches Some(rg) ==> exists|k: int|
                {
                    &&& 0 <= k < m.rules.len()
                    &&& rg == lsp_range(bs, (#[trigger] m.rules[k]).range)
                    &&& m.rules[k].targets.contains(w)
                    &&& forall|j: int| 0 <= j < k ==> !(#[trigger] m.rules[j]).targets.contains(w)
                }
        }),
{
    let w = decode_utf8(bs.subrange(s, e));
    crate::hover::lemma_first_rule_with_target_is_first_listing(m.rules, w, 0);
}

} // verus!
